//! The error taxonomy of the reconciliation engine.

use vstd::prelude::*;

verus! {

/// Everything that can go wrong while importing, matching or merging.
#[derive(Clone, Copy, PartialEq, Eq, Structural, Debug)]
pub enum TradeError {
    /// A header row matches no registered broker signature; the whole
    /// import is refused.
    UnrecognizedFormat,
    /// Files of more than one broker schema in a single import; refused
    /// before any row is processed.
    MixedAccountFormats,
    /// The tolerance matcher found no open position within tolerance of
    /// the reconstructed entry rate; a data-integrity failure.
    NoMatchingPosition,
    /// Merge candidates disagree on pair or side.
    IncompatibleMerge,
    /// Fewer than two live trades were given to a merge.
    InsufficientMergeTrades,
    /// A merge request named an identifier that is not a live trade.
    UnknownTradeId,
    /// A record or trade breaks the engine's size, price or time limits.
    LimitExceeded,
    /// An import was asked for with no files at all.
    NoInputFiles,
}

impl TradeError {
    /// A human-readable cause, for the import result shown to the caller.
    pub fn message(&self) -> (r: String)
        ensures
            (*self == TradeError::UnrecognizedFormat) ==> (r@
                == "unrecognized CSV format"@),
            (*self == TradeError::MixedAccountFormats) ==> (r@
                == "CSV files of more than one account format"@),
            (*self == TradeError::NoMatchingPosition) ==> (r@
                == "no open position matches the closing record"@),
            (*self == TradeError::IncompatibleMerge) ==> (r@
                == "trades with different pair or side cannot be merged"@),
            (*self == TradeError::InsufficientMergeTrades) ==> (r@
                == "a merge needs at least two trades"@),
            (*self == TradeError::UnknownTradeId) ==> (r@
                == "no live trade has the requested id"@),
            (*self == TradeError::LimitExceeded) ==> (r@
                == "a value is outside the supported range"@),
            (*self == TradeError::NoInputFiles) ==> (r@
                == "no CSV files were selected"@),
    {
        match self {
            TradeError::UnrecognizedFormat => "unrecognized CSV format".to_owned(),
            TradeError::MixedAccountFormats => "CSV files of more than one account format".to_owned(),
            TradeError::NoMatchingPosition => "no open position matches the closing record".to_owned(),
            TradeError::IncompatibleMerge => "trades with different pair or side cannot be merged".to_owned(),
            TradeError::InsufficientMergeTrades => "a merge needs at least two trades".to_owned(),
            TradeError::UnknownTradeId => "no live trade has the requested id".to_owned(),
            TradeError::LimitExceeded => "a value is outside the supported range".to_owned(),
            TradeError::NoInputFiles => "no CSV files were selected".to_owned(),
        }
    }
}

} // verus!
