//! The settings that a command line may carry.

use crate::text::text_view;
use vstd::prelude::*;

verus! {

/// The options of the command line, each as given or absent.
#[derive(Clone, Debug)]
pub struct Cli {
    /// The path of a configuration file.
    pub config: Option<String>,
    /// The address of the inventory; read only without a configuration file.
    pub api_url: Option<String>,
    /// The block to divide; read only without a configuration file.
    pub subnet: Option<String>,
    /// The prefix length of the sub-blocks; read only without a configuration file.
    pub new_prefix: Option<i32>,
    /// The level of logging; read only without a configuration file.
    pub log_level: Option<String>,
    /// The file to log to; read only without a configuration file.
    pub log: Option<String>,
}

/// A `Cli` as a mathematical value.
pub struct CliView {
    pub config: Option<Seq<char>>,
    pub api_url: Option<Seq<char>>,
    pub subnet: Option<Seq<char>>,
    pub new_prefix: Option<i32>,
    pub log_level: Option<Seq<char>>,
    pub log: Option<Seq<char>>,
}

impl View for Cli {
    type V = CliView;

    open spec fn view(&self) -> CliView {
        CliView {
            config: text_view(self.config),
            api_url: text_view(self.api_url),
            subnet: text_view(self.subnet),
            new_prefix: self.new_prefix,
            log_level: text_view(self.log_level),
            log: text_view(self.log),
        }
    }
}

} // verus!
