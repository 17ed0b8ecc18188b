//! The processors of the indexer, by name.

use vstd::prelude::*;

verus! {

/// The processors that the indexer can run.
#[derive(Clone, Copy, Debug, PartialEq, Eq, Structural)]
pub enum Processor {
    CoinProcessor,
    DefaultProcessor,
    TokenProcessor,
    StakeProcessor,
    AptocracyProcessor,
}

/// The processor that goes by `name`, if one does.
pub open spec fn processor_named(name: Seq<char>) -> Option<Processor> {
    if name == "default_processor"@ {
        Some(Processor::DefaultProcessor)
    } else if name == "token_processor"@ {
        Some(Processor::TokenProcessor)
    } else if name == "coin_processor"@ {
        Some(Processor::CoinProcessor)
    } else if name == "stake_processor"@ {
        Some(Processor::StakeProcessor)
    } else if name == "aptocracy_processor"@ {
        Some(Processor::AptocracyProcessor)
    } else {
        None
    }
}

/// Whether `input` spells `name`.
fn spells(input: &String, name: &str) -> (same: bool)
    ensures
        same == (input@ == name@),
{
    let owned = name.to_owned();
    *input == owned
}

impl Processor {
    /// The processor that goes by the name `input_str`, if one does.
    pub fn find(input_str: &String) -> (processor: Option<Processor>)
        ensures
            processor == processor_named(input_str@),
    {
        if spells(input_str, "default_processor") {
            Some(Processor::DefaultProcessor)
        } else if spells(input_str, "token_processor") {
            Some(Processor::TokenProcessor)
        } else if spells(input_str, "coin_processor") {
            Some(Processor::CoinProcessor)
        } else if spells(input_str, "stake_processor") {
            Some(Processor::StakeProcessor)
        } else if spells(input_str, "aptocracy_processor") {
            Some(Processor::AptocracyProcessor)
        } else {
            None
        }
    }

    /// The processor that goes by the name `input_str`. The name has to be
    /// that of a processor.
    pub fn from_string(input_str: &String) -> (processor: Processor)
        requires
            processor_named(input_str@) is Some,
        ensures
            Some(processor) == processor_named(input_str@),
    {
        match Processor::find(input_str) {
            Some(processor) => processor,
            None => Processor::DefaultProcessor,
        }
    }

    /// The name by which the processor goes.
    pub fn name(&self) -> (name: &'static str)
        ensures
            name@ == (match *self {
                Processor::CoinProcessor => "coin_processor"@,
                Processor::DefaultProcessor => "default_processor"@,
                Processor::TokenProcessor => "token_processor"@,
                Processor::StakeProcessor => "stake_processor"@,
                Processor::AptocracyProcessor => "aptocracy_processor"@,
            }),
    {
        match self {
            Processor::CoinProcessor => "coin_processor",
            Processor::DefaultProcessor => "default_processor",
            Processor::TokenProcessor => "token_processor",
            Processor::StakeProcessor => "stake_processor",
            Processor::AptocracyProcessor => "aptocracy_processor",
        }
    }
}

} // verus!
