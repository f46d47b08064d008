//! The traversal configuration, fixed for a whole traversal.

use vstd::prelude::*;
use vstd::string::*;
use crate::glob::{GlobFilter, MAX_PATTERN_LEN, glob_compiles};

verus! {

/// Why a configuration could not be built.
#[derive(Clone, Copy, Debug, PartialEq, Eq, Structural)]
pub enum ConfigError {
    /// The file pattern is not a valid glob.
    InvalidPattern,
}

/// The file pattern as it is compiled: a pattern that does not begin with
/// `*` gets one in front, so that a bare suffix matches any path ending in it.
pub open spec fn normalized_pattern(p: Seq<char>) -> Seq<char> {
    if p.len() > 0 && p[0] == '*' {
        p
    } else {
        seq!['*'] + p
    }
}

pub fn normalize_pattern(p: &str) -> (r: String)
    ensures
        r@ == normalized_pattern(p@),
{
    if p.unicode_len() > 0 && p.get_char(0) == '*' {
        String::from_str(p)
    } else {
        let star = String::from_str("*");
        proof {
            reveal_strlit("*");
        }
        let r = star.concat(p);
        assert(r@ =~= seq!['*'] + p@);
        r
    }
}

/// A configuration as values; `pattern` is the compiled file pattern.
pub struct ConfigView {
    pub max_depth: Option<usize>,
    pub dirs_only: bool,
    pub keep_locks: bool,
    pub pattern: Option<Seq<char>>,
}

impl ConfigView {
    /// Whether a directory at `depth` is left unexpanded.
    pub open spec fn depth_reached(&self, depth: int) -> bool {
        self.max_depth matches Some(m) && depth >= m
    }
}

/// Settings shared by every level of one traversal.
pub struct TraversalConfig {
    /// Directories at this depth or deeper are not expanded.
    pub max_depth: Option<usize>,
    /// Only directories are listed.
    pub dirs_only: bool,
    /// `Cargo.lock` is listed too.
    pub keep_locks: bool,
    /// Only files matching this glob, and directories holding one, are listed.
    pub file_glob: Option<GlobFilter>,
}

impl TraversalConfig {
    /// Builds a configuration; the file pattern, when given, is normalized
    /// and compiled.
    pub fn new(
        max_depth: Option<usize>,
        dirs_only: bool,
        keep_locks: bool,
        file_pattern: Option<&str>,
    ) -> (r: Result<TraversalConfig, ConfigError>)
        requires
            file_pattern matches Some(p) ==> p@.len() < MAX_PATTERN_LEN,
        ensures
            r.is_ok() <==> (file_pattern matches Some(p) ==> glob_compiles(
                normalized_pattern(p@),
            )),
            r.is_err() ==> r == Err::<TraversalConfig, ConfigError>(ConfigError::InvalidPattern),
            r matches Ok(c) ==> c@ == (ConfigView {
                max_depth,
                dirs_only,
                keep_locks,
                pattern: match file_pattern {
                    Some(p) => Some(normalized_pattern(p@)),
                    None => None,
                },
            }),
    {
        let file_glob = match file_pattern {
            None => None,
            Some(p) => {
                let pattern = normalize_pattern(p);
                match GlobFilter::compile(pattern.as_str()) {
                    Ok(g) => Some(g),
                    Err(_) => {
                        return Err(ConfigError::InvalidPattern);
                    },
                }
            },
        };
        Ok(TraversalConfig { max_depth, dirs_only, keep_locks, file_glob })
    }

}

impl View for TraversalConfig {
    type V = ConfigView;

    open spec fn view(&self) -> ConfigView {
        ConfigView {
            max_depth: self.max_depth,
            dirs_only: self.dirs_only,
            keep_locks: self.keep_locks,
            pattern: match self.file_glob {
                Some(g) => Some(g.spec_pattern()),
                None => None,
            },
        }
    }
}

} // verus!
