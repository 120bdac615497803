//! The entry-block parser.
//!
//! A single pass over the listing text, line by line. Lines of the form
//! `Key = Value` (keys `Path`, `Size`, `Folder`, `Modified`) build up an
//! in-progress record; a `Path = ` line opens a new block (emitting the
//! previous one), a blank line closes the open block, and the end of the
//! input closes whatever is still open. Exactly one record is emitted per
//! `Path = ` line; unknown keys and stray text are ignored.

use vstd::prelude::*;
use crate::chars::{str_to_chars, chars_to_string, subrange_vec, starts_with_lit, has_prefix};
use crate::text::{trim_spec, trimmed, normalize_seq, normalize_chars, split_lines_spec,
    split_lines, parse_u64_spec, parse_u64_chars};

verus! {

/// Mathematical model of a [`RawEntry`].
pub ghost struct EntryModel {
    /// Normalized path as seeded by the `Path = ` line, with a trailing
    /// `/` forced when a `Folder = +` line marked the block a directory.
    pub path: Seq<char>,
    /// Whether a `Folder = +` line marked the block a directory.
    pub is_dir: bool,
    /// The last parsable `Size = ` value of the block, `0` if none.
    pub size: u64,
    /// The last `Modified = ` value of the block, verbatim, empty if none.
    pub modified: Seq<char>,
}

/// One partially built entry record, as emitted by the parser.
#[derive(Debug, Clone)]
pub struct RawEntry {
    /// Normalized path, `/`-separated.
    pub path: String,
    /// Whether the block was marked a directory.
    pub is_dir: bool,
    /// Size in bytes.
    pub size: u64,
    /// Modification timestamp, verbatim.
    pub modified: String,
}

impl View for RawEntry {
    type V = EntryModel;

    open spec fn view(&self) -> EntryModel {
        EntryModel {
            path: self.path@,
            is_dir: self.is_dir,
            size: self.size,
            modified: self.modified@,
        }
    }
}

/// The models of a vector of raw entries, in order.
pub open spec fn entry_models(es: Seq<RawEntry>) -> Seq<EntryModel> {
    es.map_values(|e: RawEntry| e@)
}

/// The records emitted when a block state is closed: one when a block is
/// open, none otherwise.
pub open spec fn emit_opt(st: Option<EntryModel>) -> Seq<EntryModel> {
    match st {
        Some(e) => seq![e],
        None => Seq::<EntryModel>::empty(),
    }
}

/// One step of the parser: the state after a raw line, and the records
/// the line caused to be emitted.
pub open spec fn step_line(st: Option<EntryModel>, raw: Seq<char>) -> (Option<EntryModel>, Seq<
    EntryModel,
>) {
    let line = trim_spec(raw);
    if has_prefix(line, "Path = "@) {
        (
            Some(
                EntryModel {
                    path: normalize_seq(line.skip(7)),
                    is_dir: false,
                    size: 0,
                    modified: Seq::<char>::empty(),
                },
            ),
            emit_opt(st),
        )
    } else if has_prefix(line, "Size = "@) {
        match st {
            Some(e) => (
                match parse_u64_spec(line.skip(7)) {
                    Some(n) => Some(EntryModel { size: n, ..e }),
                    None => Some(e),
                },
                Seq::<EntryModel>::empty(),
            ),
            None => (None, Seq::<EntryModel>::empty()),
        }
    } else if has_prefix(line, "Folder = "@) {
        match st {
            Some(e) => {
                let d = line.skip(9) == seq!['+'];
                let p = if d && !(e.path.len() > 0 && e.path.last() == '/') {
                    e.path.push('/')
                } else {
                    e.path
                };
                (Some(EntryModel { path: p, is_dir: d, ..e }), Seq::<EntryModel>::empty())
            },
            None => (None, Seq::<EntryModel>::empty()),
        }
    } else if has_prefix(line, "Modified = "@) {
        match st {
            Some(e) => (
                Some(EntryModel { modified: line.skip(11), ..e }),
                Seq::<EntryModel>::empty(),
            ),
            None => (None, Seq::<EntryModel>::empty()),
        }
    } else if line.len() == 0 {
        (None, emit_opt(st))
    } else {
        (st, Seq::<EntryModel>::empty())
    }
}

/// The parser folded over a sequence of raw lines: final state and all
/// records emitted, in order.
pub open spec fn run_lines(lines: Seq<Seq<char>>) -> (Option<EntryModel>, Seq<EntryModel>)
    decreases lines.len(),
{
    if lines.len() == 0 {
        (None, Seq::<EntryModel>::empty())
    } else {
        let prev = run_lines(lines.drop_last());
        let st = step_line(prev.0, lines.last());
        (st.0, prev.1 + st.1)
    }
}

/// All entry records of a listing text: the fold over its lines, with the
/// still-open block closed at the end of the input.
pub open spec fn entries_of(text: Seq<char>) -> Seq<EntryModel> {
    let r = run_lines(split_lines_spec(text));
    r.1 + emit_opt(r.0)
}

/// How many lines open an entry block: those whose trimmed form starts
/// with the path key.
pub open spec fn path_line_count(lines: Seq<Seq<char>>) -> int
    decreases lines.len(),
{
    if lines.len() == 0 {
        0
    } else {
        path_line_count(lines.drop_last()) + if has_prefix(
            trim_spec(lines.last()),
            "Path = "@,
        ) {
            1int
        } else {
            0int
        }
    }
}

/// Running the parser emits one record per block-opening line, counting
/// the block still open at the end.
proof fn lemma_run_lines_count(lines: Seq<Seq<char>>)
    ensures
        run_lines(lines).1.len() + emit_opt(run_lines(lines).0).len() == path_line_count(lines),
    decreases lines.len(),
{
    if lines.len() > 0 {
        lemma_run_lines_count(lines.drop_last());
    }
}

/// The result guarantee of the parser: the emitted sequence holds
/// exactly one record per `Path = ` line of the text — no block is
/// dropped and none is duplicated.
pub proof fn lemma_one_entry_per_path_line(text: Seq<char>)
    ensures
        entries_of(text).len() == path_line_count(split_lines_spec(text)),
{
    lemma_run_lines_count(split_lines_spec(text));
}

/// The model of the in-progress state.
spec fn st_of(has: bool, path: Seq<char>, is_dir: bool, size: u64, modified: Seq<char>) -> Option<
    EntryModel,
> {
    if has {
        Some(EntryModel { path, is_dir, size, modified })
    } else {
        None
    }
}

/// Parses the detailed listing text into the flat record sequence, one
/// record per `Path = ` line, in source order.
#[verifier::loop_isolation(false)]
pub fn parse_entry_blocks(output_str: &str) -> (r: Vec<RawEntry>)
    ensures
        entry_models(r@) == entries_of(output_str@),
{
    let chars: Vec<char> = str_to_chars(output_str);
    let lines: Vec<Vec<char>> = split_lines(&chars);
    let ghost lm: Seq<Seq<char>> = lines@.map_values(|l: Vec<char>| l@);
    let mut out: Vec<RawEntry> = Vec::new();
    let mut has_pending: bool = false;
    let mut pend_path: Vec<char> = Vec::new();
    let mut pend_dir: bool = false;
    let mut pend_size: u64 = 0;
    let mut pend_mod: Vec<char> = Vec::new();
    let mut i: usize = 0;
    proof {
        assert(lm.take(0) =~= Seq::<Seq<char>>::empty());
    }
    while i < lines.len()
        invariant
            i <= lines@.len(),
            st_of(has_pending, pend_path@, pend_dir, pend_size, pend_mod@) == run_lines(
                lm.take(i as int),
            ).0,
            entry_models(out@) == run_lines(lm.take(i as int)).1,
        decreases lines@.len() - i,
    {
        proof {
            assert(lm.take(i + 1).drop_last() =~= lm.take(i as int));
            assert(lm.take(i + 1).last() == lm[i as int]);
        }
        let ghost prev = run_lines(lm.take(i as int));
        let t: Vec<char> = trimmed(&lines[i]);
        proof {
            assert(lm[i as int] == lines@[i as int]@);
            assert(t@ == trim_spec(lm[i as int]));
        }
        if starts_with_lit(&t, "Path = ") {
            proof {
                reveal_strlit("Path = ");
            }
            if has_pending {
                let done: RawEntry = RawEntry {
                    path: chars_to_string(&pend_path),
                    is_dir: pend_dir,
                    size: pend_size,
                    modified: chars_to_string(&pend_mod),
                };
                let ghost oldmodels: Seq<EntryModel> = entry_models(out@);
                out.push(done);
                proof {
                    assert(entry_models(out@) =~= oldmodels + emit_opt(prev.0));
                }
            } else {
                proof {
                    assert(entry_models(out@) =~= entry_models(out@) + emit_opt(prev.0));
                }
            }
            let rest: Vec<char> = subrange_vec(&t, 7, t.len());
            proof {
                assert(rest@ =~= t@.skip(7));
            }
            pend_path = normalize_chars(&rest);
            pend_dir = false;
            pend_size = 0;
            pend_mod = Vec::new();
            has_pending = true;
        } else if starts_with_lit(&t, "Size = ") {
            proof {
                reveal_strlit("Size = ");
            }
            if has_pending {
                let rest: Vec<char> = subrange_vec(&t, 7, t.len());
                proof {
                    assert(rest@ =~= t@.skip(7));
                }
                let parsed: Option<u64> = parse_u64_chars(&rest);
                match parsed {
                    Some(n) => {
                        pend_size = n;
                    },
                    None => {},
                }
            }
        } else if starts_with_lit(&t, "Folder = ") {
            proof {
                reveal_strlit("Folder = ");
            }
            if has_pending {
                let rest: Vec<char> = subrange_vec(&t, 9, t.len());
                proof {
                    assert(rest@ =~= t@.skip(9));
                }
                let d: bool = rest.len() == 1 && rest[0] == '+';
                proof {
                    if d {
                        assert(rest@ =~= seq!['+']);
                    } else {
                        assert(rest@ != seq!['+']);
                    }
                }
                pend_dir = d;
                if d {
                    let pl: usize = pend_path.len();
                    if pl == 0 || pend_path[pl - 1] != '/' {
                        pend_path.push('/');
                    }
                }
            }
        } else if starts_with_lit(&t, "Modified = ") {
            proof {
                reveal_strlit("Modified = ");
            }
            if has_pending {
                let rest: Vec<char> = subrange_vec(&t, 11, t.len());
                proof {
                    assert(rest@ =~= t@.skip(11));
                }
                pend_mod = rest;
            }
        } else if t.len() == 0 {
            if has_pending {
                let done: RawEntry = RawEntry {
                    path: chars_to_string(&pend_path),
                    is_dir: pend_dir,
                    size: pend_size,
                    modified: chars_to_string(&pend_mod),
                };
                let ghost oldmodels: Seq<EntryModel> = entry_models(out@);
                out.push(done);
                proof {
                    assert(entry_models(out@) =~= oldmodels + emit_opt(prev.0));
                }
                has_pending = false;
            } else {
                proof {
                    assert(entry_models(out@) =~= entry_models(out@) + emit_opt(prev.0));
                }
            }
        } else {
            proof {
                assert(entry_models(out@) =~= entry_models(out@) + Seq::<EntryModel>::empty());
            }
        }
        i = i + 1;
    }
    proof {
        assert(lm.take(lines@.len() as int) =~= lm);
    }
    if has_pending {
        let done: RawEntry = RawEntry {
            path: chars_to_string(&pend_path),
            is_dir: pend_dir,
            size: pend_size,
            modified: chars_to_string(&pend_mod),
        };
        let ghost oldmodels: Seq<EntryModel> = entry_models(out@);
        out.push(done);
        proof {
            assert(entry_models(out@) =~= oldmodels + emit_opt(run_lines(lm).0));
        }
    } else {
        proof {
            assert(entry_models(out@) =~= entry_models(out@) + emit_opt(run_lines(lm).0));
        }
    }
    out
}

} // verus!
