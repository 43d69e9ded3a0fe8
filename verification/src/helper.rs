//! Name sanitizing and node-label formatting.

use vstd::prelude::*;
use vstd::string::StrSliceExecFns;

use crate::calls::{FnGraphArgs, FnNodeInfo};
use crate::deps::{DepsArgs, NodeInfo};
use crate::text::push_char;

verus! {

/// `-` and `.` become `_`; every other character stays.
pub open spec fn sanitize_char(c: char) -> char {
    if c == '-' || c == '.' {
        '_'
    } else {
        c
    }
}

/// A name with `-` and `.` replaced by `_`.
pub open spec fn sanitize_spec(s: Seq<char>) -> Seq<char> {
    s.map_values(|c: char| sanitize_char(c))
}

/// Replace `-` and `.` by `_`, so the name can serve as a graph identifier.
pub fn sanitize_name(name: &str) -> (r: String)
    ensures
        r@ == sanitize_spec(name@),
{
    let n = name.unicode_len();
    let mut out = String::new();
    let mut i: usize = 0;
    while i < n
        invariant
            i <= n,
            n == name@.len(),
            out@ == sanitize_spec(name@.subrange(0, i as int)),
        decreases n - i,
    {
        let c = name.get_char(i);
        if c == '-' || c == '.' {
            push_char(&mut out, '_');
        } else {
            push_char(&mut out, c);
        }
        i = i + 1;
        proof {
            assert(out@ =~= sanitize_spec(name@.subrange(0, i as int)));
        }
    }
    proof {
        assert(name@.subrange(0, n as int) =~= name@);
    }
    out
}

/// In a version label only `.` becomes `_`.
pub open spec fn version_char(c: char) -> char {
    if c == '.' {
        '_'
    } else {
        c
    }
}

/// A version string with `.` replaced by `_`.
pub open spec fn version_label_spec(v: Seq<char>) -> Seq<char> {
    v.map_values(|c: char| version_char(c))
}

/// What a dependency node's label reads: the sanitized package name, with
/// `_` and the dot-replaced version appended when versions are shown.
pub open spec fn node_label_spec(info: NodeInfo, args: DepsArgs) -> Seq<char> {
    if args.show_versions {
        sanitize_spec(info.name@) + seq!['_'] + version_label_spec(info.version@)
    } else {
        sanitize_spec(info.name@)
    }
}

/// The label under which a dependency node is rendered.
pub fn format_node_label(info: &NodeInfo, args: &DepsArgs) -> (r: String)
    ensures
        r@ == node_label_spec(*info, *args),
{
    let mut out = sanitize_name(info.name.as_str());
    if args.show_versions {
        push_char(&mut out, '_');
        let vs = info.version.as_str();
        let n = vs.unicode_len();
        let mut i: usize = 0;
        while i < n
            invariant
                i <= n,
                n == vs@.len(),
                vs@ == info.version@,
                out@ == sanitize_spec(info.name@) + seq!['_'] + version_label_spec(
                    vs@.subrange(0, i as int),
                ),
            decreases n - i,
        {
            let c = vs.get_char(i);
            if c == '.' {
                push_char(&mut out, '_');
            } else {
                push_char(&mut out, c);
            }
            i = i + 1;
            proof {
                assert(out@ =~= sanitize_spec(info.name@) + seq!['_'] + version_label_spec(
                    vs@.subrange(0, i as int),
                ));
            }
        }
        proof {
            assert(vs@.subrange(0, n as int) =~= vs@);
        }
    }
    out
}

/// In a signature label the punctuation of a signature — parentheses,
/// commas, spaces, the arrow's `-` and `>` — and `.` become `_`.
pub open spec fn fn_label_char(c: char) -> char {
    if c == '(' || c == ')' || c == ',' || c == ' ' || c == '-' || c == '>' || c == '.' {
        '_'
    } else {
        c
    }
}

/// What a call-graph node's label reads: its signature with punctuation
/// replaced when signatures are shown and one is attached, else its
/// sanitized short name.
pub open spec fn fn_label_spec(info: FnNodeInfo, args: FnGraphArgs) -> Seq<char> {
    if args.show_signatures {
        match info.signature {
            Some(sig) => sig@.map_values(|c: char| fn_label_char(c)),
            None => sanitize_spec(info.name@),
        }
    } else {
        sanitize_spec(info.name@)
    }
}

/// The label under which a call-graph node is rendered.
pub fn format_fn_label(info: &FnNodeInfo, args: &FnGraphArgs) -> (r: String)
    ensures
        r@ == fn_label_spec(*info, *args),
{
    if args.show_signatures {
        match &info.signature {
            Some(sig) => {
                let ss = sig.as_str();
                let n = ss.unicode_len();
                let mut out = String::new();
                let mut i: usize = 0;
                while i < n
                    invariant
                        i <= n,
                        n == ss@.len(),
                        ss@ == info.signature->0@,
                        info.signature is Some,
                        out@ == ss@.subrange(0, i as int).map_values(
                            |c: char| fn_label_char(c),
                        ),
                    decreases n - i,
                {
                    let c = ss.get_char(i);
                    if c == '(' || c == ')' || c == ',' || c == ' ' || c == '-' || c == '>'
                        || c == '.' {
                        push_char(&mut out, '_');
                    } else {
                        push_char(&mut out, c);
                    }
                    i = i + 1;
                    proof {
                        assert(out@ =~= ss@.subrange(0, i as int).map_values(
                            |c: char| fn_label_char(c),
                        ));
                    }
                }
                proof {
                    assert(ss@.subrange(0, n as int) =~= ss@);
                }
                return out;
            },
            None => {},
        }
    }
    sanitize_name(info.name.as_str())
}

} // verus!
