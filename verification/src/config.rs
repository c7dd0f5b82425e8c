//! The settings of a run: where, how parallel, which file, which targets and which debugging
//! modes.
use vstd::prelude::*;
use vstd::string::StringSliceAdditionalSpecFns;

verus! {

/// Nothing to do with rustc debug vs. release.
/// This is just ninja terminology.
#[derive(Debug, PartialEq, Eq, Structural, Copy, Clone)]
pub enum DebugMode {
    List,
    Stats,
}

#[derive(Debug)]
pub struct DebugModeError(pub String);

/// The bytes of `stats`.
pub open spec fn stats_bytes() -> Seq<u8> {
    seq![115u8, 116, 97, 116, 115]
}

/// The bytes of `list`.
pub open spec fn list_bytes() -> Seq<u8> {
    seq![108u8, 105, 115, 116]
}

impl DebugMode {
    /// The debugging mode named `s`: `stats` or `list`.
    pub fn parse(s: &str) -> (r: Result<DebugMode, DebugModeError>)
        ensures
            s.spec_bytes() == stats_bytes() ==> r matches Ok(DebugMode::Stats),
            s.spec_bytes() == list_bytes() ==> r matches Ok(DebugMode::List),
            s.spec_bytes() != stats_bytes() && s.spec_bytes() != list_bytes() ==> (r matches Err(
                e,
            ) && e.0@ == s@),
    {
        let stats: [u8; 5] = [115u8, 116, 97, 116, 115];
        let list: [u8; 4] = [108u8, 105, 115, 116];
        assert(stats@ =~= stats_bytes());
        assert(list@ =~= list_bytes());
        if crate::parse::lexer::bytes_eq(s.as_bytes(), stats.as_slice()) {
            Ok(DebugMode::Stats)
        } else if crate::parse::lexer::bytes_eq(s.as_bytes(), list.as_slice()) {
            Ok(DebugMode::List)
        } else {
            Err(DebugModeError(s.to_owned()))
        }
    }
}

impl std::str::FromStr for DebugMode {
    type Err = DebugModeError;

    fn from_str(s: &str) -> (r: Result<Self, Self::Err>)
        ensures
            s.spec_bytes() == stats_bytes() ==> r matches Ok(DebugMode::Stats),
            s.spec_bytes() == list_bytes() ==> r matches Ok(DebugMode::List),
            s.spec_bytes() != stats_bytes() && s.spec_bytes() != list_bytes() ==> (r matches Err(
                e,
            ) && e.0@ == s@),
    {
        DebugMode::parse(s)
    }
}

impl DebugModeError {
    /// `Unknown debug setting '<name>'`.
    pub fn message(&self) -> (r: String)
        ensures
            r@ == "Unknown debug setting '"@ + self.0@ + "'"@,
    {
        let mut s = String::new();
        crate::parse::parser::push_str(&mut s, "Unknown debug setting '");
        crate::parse::parser::push_str(&mut s, self.0.as_str());
        crate::parse::parser::push_str(&mut s, "'");
        s
    }
}

#[derive(Debug)]
pub struct Config {
    pub execution_dir: Option<String>,
    pub parallelism: usize,
    pub build_file: String,
    pub debug_modes: Vec<DebugMode>,
    pub targets: Vec<String>,
}

impl Config {
    /// Whether the `stats` debugging mode is on.
    pub fn metrics_enabled(&self) -> (r: bool)
        ensures
            r == self.debug_modes@.contains(DebugMode::Stats),
    {
        let mut i: usize = 0;
        while i < self.debug_modes.len()
            invariant
                i <= self.debug_modes@.len(),
                forall|k: int| 0 <= k < i ==> self.debug_modes@[k] != DebugMode::Stats,
            decreases self.debug_modes@.len() - i,
        {
            if self.debug_modes[i] == DebugMode::Stats {
                return true;
            }
            i = i + 1;
        }
        false
    }
}

} // verus!
