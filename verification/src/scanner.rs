//! The walker's configuration and its filter rules.
//!
//! The walk itself is directory I/O and lives with the binary; the glob
//! patterns it walks with and the per-entry accept rules are built and
//! decided here.

use vstd::prelude::*;
use vstd::string::StrSliceExecFns;
use vstd::string::StringExecFns;

use crate::params::{contains_token, split_commas, split_tokens, Params};

verus! {

/// The glob pattern that selects the listed file types.
pub open spec fn include_pattern(types: Seq<char>) -> Seq<char> {
    "**/*.{"@ + types + "}"@
}

/// The glob pattern that rejects the listed file types.
pub open spec fn exclude_pattern(types: Seq<char>) -> Seq<char> {
    "!**/*.{"@ + types + "}"@
}

/// Whether a file of this extension passes the type filters: it must be
/// in the include list when one is given, and never in the exclude list.
/// Exclusion dominates inclusion.
pub open spec fn type_selected(
    inc_types: Option<Seq<char>>,
    exc_types: Option<Seq<char>>,
    ext: Seq<char>,
) -> bool {
    &&& (match inc_types {
        Some(i) => split_commas(i).contains(ext),
        None => true,
    })
    &&& (match exc_types {
        Some(x) => !split_commas(x).contains(ext),
        None => true,
    })
}

/// The walker's configuration: where to scan and what to let through.
#[derive(Debug, Clone)]
pub struct Scanner {
    /// The resolved root directory of the scan.
    pub directory: String,
    /// Smallest directory depth scanned.
    pub min_depth: Option<usize>,
    /// Largest directory depth scanned.
    pub max_depth: Option<usize>,
    /// File types let through (absent: all), as a comma-separated list.
    pub include_types: Option<String>,
    /// File types rejected, as a comma-separated list.
    pub exclude_types: Option<String>,
    /// Smallest file size let through, in bytes.
    pub min_size: Option<u64>,
    /// Whether symbolic links are followed.
    pub follow_links: bool,
    /// Whether progress is reported.
    pub progress: bool,
}

/// The abstract value of an optional text.
pub open spec fn opt_view(o: Option<String>) -> Option<Seq<char>> {
    match o {
        Some(s) => Some(s@),
        None => None,
    }
}

/// Abstract value of a walker configuration.
pub ghost struct ScannerRec {
    pub directory: Seq<char>,
    pub min_depth: Option<usize>,
    pub max_depth: Option<usize>,
    pub include_types: Option<Seq<char>>,
    pub exclude_types: Option<Seq<char>>,
    pub min_size: Option<u64>,
    pub follow_links: bool,
    pub progress: bool,
}

impl View for Scanner {
    type V = ScannerRec;

    open spec fn view(&self) -> ScannerRec {
        ScannerRec {
            directory: self.directory@,
            min_depth: self.min_depth,
            max_depth: self.max_depth,
            include_types: opt_view(self.include_types),
            exclude_types: opt_view(self.exclude_types),
            min_size: self.min_size,
            follow_links: self.follow_links,
            progress: self.progress,
        }
    }
}

fn clone_opt(o: &Option<String>) -> (r: Option<String>)
    ensures
        opt_view(r) == opt_view(*o),
{
    match o {
        Some(s) => Some(s.clone()),
        None => None,
    }
}

impl Scanner {
    /// A walker configured from the run's parameters, rooted at the
    /// already-resolved directory the caller hands in.
    pub fn new(app_args: &Params, directory: String) -> (r: Self)
        ensures
            r.directory == directory,
            opt_view(r.include_types) == opt_view(app_args.types),
            opt_view(r.exclude_types) == opt_view(app_args.exclude_types),
            r.min_depth == app_args.min_depth,
            r.max_depth == app_args.max_depth,
            r.min_size == (match app_args.min_size {
                Some(m) => crate::params::parsed_size(m@),
                None => None::<u64>,
            }),
            r.follow_links == app_args.follow_links,
            r.progress == app_args.progress,
    {
        Scanner {
            directory,
            include_types: clone_opt(&app_args.types),
            exclude_types: clone_opt(&app_args.exclude_types),
            min_depth: app_args.min_depth,
            max_depth: app_args.max_depth,
            min_size: app_args.get_min_size(),
            follow_links: app_args.follow_links,
            progress: app_args.progress,
        }
    }

    /// A field-for-field copy whose abstract value is the same.
    pub fn duplicate(&self) -> (r: Self)
        ensures
            r@ == self@,
    {
        Scanner {
            directory: self.directory.clone(),
            min_depth: self.min_depth,
            max_depth: self.max_depth,
            include_types: clone_opt(&self.include_types),
            exclude_types: clone_opt(&self.exclude_types),
            min_size: self.min_size,
            follow_links: self.follow_links,
            progress: self.progress,
        }
    }

    /// The same walker with the size threshold set.
    pub fn min_size(&self, min_size: u64) -> (r: Self)
        ensures
            r@ == (ScannerRec { min_size: Some(min_size), ..self@ }),
    {
        Scanner { min_size: Some(min_size), ..self.duplicate() }
    }

    /// The same walker with the lower depth bound set.
    pub fn min_depth(&self, min_depth: usize) -> (r: Self)
        ensures
            r@ == (ScannerRec { min_depth: Some(min_depth), ..self@ }),
    {
        Scanner { min_depth: Some(min_depth), ..self.duplicate() }
    }

    /// The same walker with the upper depth bound set.
    pub fn max_depth(&self, max_depth: usize) -> (r: Self)
        ensures
            r@ == (ScannerRec { max_depth: Some(max_depth), ..self@ }),
    {
        Scanner { max_depth: Some(max_depth), ..self.duplicate() }
    }

    /// The same walker rooted elsewhere.
    pub fn directory(&self, dir: String) -> (r: Self)
        ensures
            r@ == (ScannerRec { directory: dir@, ..self@ }),
    {
        Scanner { directory: dir, ..self.duplicate() }
    }

    /// The same walker restricted to the listed file types.
    pub fn filetypes(&self, patterns: String) -> (r: Self)
        ensures
            r@ == (ScannerRec { include_types: Some(patterns@), ..self@ }),
    {
        Scanner { include_types: Some(patterns), ..self.duplicate() }
    }

    /// The same walker with symbolic links left alone.
    pub fn ignore_links(&self) -> (r: Self)
        ensures
            r@ == (ScannerRec { follow_links: false, ..self@ }),
    {
        Scanner { follow_links: false, ..self.duplicate() }
    }

    /// The same walker with symbolic links followed.
    pub fn follow_links(&self) -> (r: Self)
        ensures
            r@ == (ScannerRec { follow_links: true, ..self@ }),
    {
        Scanner { follow_links: true, ..self.duplicate() }
    }

    /// The glob patterns the walk runs with: the include pattern for the
    /// listed types (or everything when none are listed), then the
    /// exclude pattern when exclusions are listed.
    pub fn scan_patterns(&self) -> (r: Vec<String>)
        ensures
            r@.len() == (if self.exclude_types is Some {
                2int
            } else {
                1int
            }),
            r@[0]@ == (match self.include_types {
                Some(t) => include_pattern(t@),
                None => "**/*"@,
            }),
            self.exclude_types matches Some(x) ==> r@[1]@ == exclude_pattern(x@),
    {
        let mut r: Vec<String> = Vec::new();
        match &self.include_types {
            Some(ftypes) => {
                let mut p = String::new();
                p.append("**/*.{");
                p.append(ftypes.as_str());
                p.append("}");
                proof {
                    assert(p@ =~= include_pattern(ftypes@));
                }
                r.push(p);
            },
            None => {
                let mut p = String::new();
                p.append("**/*");
                proof {
                    assert(p@ =~= "**/*"@);
                }
                r.push(p);
            },
        }
        match &self.exclude_types {
            Some(ftypes) => {
                let mut p = String::new();
                p.append("!**/*.{");
                p.append(ftypes.as_str());
                p.append("}");
                proof {
                    assert(p@ =~= exclude_pattern(ftypes@));
                }
                r.push(p);
            },
            None => {},
        }
        r
    }

    /// Whether a file of this size passes the size threshold: files
    /// strictly smaller than the configured minimum are rejected, so a
    /// file exactly at the minimum is let through.
    pub fn size_selected(&self, size: u64) -> (r: bool)
        ensures
            r == (match self.min_size {
                Some(m) => size >= m,
                None => true,
            }),
    {
        match self.min_size {
            Some(m) => size >= m,
            None => true,
        }
    }

    /// Whether a file of this extension passes the type filters.
    pub fn type_selected(&self, ext: &String) -> (r: bool)
        ensures
            r == type_selected(opt_view(self.include_types), opt_view(self.exclude_types), ext@),
    {
        let inc = match &self.include_types {
            Some(i) => {
                let itoks = split_tokens(i.as_str());
                contains_token(&itoks, ext)
            },
            None => true,
        };
        let exc = match &self.exclude_types {
            Some(x) => {
                let xtoks = split_tokens(x.as_str());
                contains_token(&xtoks, ext)
            },
            None => false,
        };
        inc && !exc
    }

    /// Whether a scanned file passes both the type filters and the size
    /// threshold: only such files enter the pipeline.
    pub fn accepts_file(&self, ext: &String, size: u64) -> (r: bool)
        ensures
            r == (type_selected(opt_view(self.include_types), opt_view(self.exclude_types), ext@)
                && (match self.min_size {
                Some(m) => size >= m,
                None => true,
            })),
    {
        self.type_selected(ext) && self.size_selected(size)
    }
}

} // verus!
