//! The manifest parser: one `"<provider>|<name>"` ref text per line, blank
//! lines skipped, lines whose first non-whitespace character is `#` skipped.

use vstd::prelude::*;
use vstd::string::StrSliceExecFns;

use crate::text::{is_space, is_space_exec, trim_start};
use crate::{spec_parse_ref, ManifestError, ParcelRef, RefView};

verus! {

/// The character sequences of a list of lines.
pub open spec fn lines_view(v: Seq<String>) -> Seq<Seq<char>> {
    v.map_values(|s: String| s@)
}

/// A line the manifest parser passes over: blank, or a comment.
pub open spec fn line_skipped(l: Seq<char>) -> bool {
    trim_start(l).len() == 0 || trim_start(l)[0] == '#'
}

/// What each retained manifest line denotes: `None` marks a line that is
/// neither blank nor a comment but is no well-formed ref text.
pub open spec fn spec_manifest_refs(lines: Seq<Seq<char>>) -> Seq<Option<RefView>>
    decreases lines.len(),
{
    if lines.len() == 0 {
        Seq::empty()
    } else {
        let rest = spec_manifest_refs(lines.drop_last());
        if line_skipped(lines.last()) {
            rest
        } else {
            rest.push(spec_parse_ref(lines.last()))
        }
    }
}

proof fn lemma_spec_manifest_refs_snoc(lines: Seq<Seq<char>>, i: int)
    requires
        0 <= i < lines.len(),
    ensures
        spec_manifest_refs(lines.subrange(0, i + 1)) == if line_skipped(lines[i]) {
            spec_manifest_refs(lines.subrange(0, i))
        } else {
            spec_manifest_refs(lines.subrange(0, i)).push(spec_parse_ref(lines[i]))
        },
{
    assert(lines.subrange(0, i + 1).drop_last() =~= lines.subrange(0, i));
    assert(lines.subrange(0, i + 1).last() == lines[i]);
}

/// Whether the parser passes over this line.
pub fn line_skipped_exec(l: &str) -> (b: bool)
    ensures
        b == line_skipped(l@),
{
    let len = l.unicode_len();
    let mut i: usize = 0;
    while i < len && is_space_exec(l.get_char(i))
        invariant
            0 <= i <= len,
            len == l@.len(),
            forall|j: int| 0 <= j < i ==> is_space(l@[j]),
        decreases len - i,
    {
        i = i + 1;
    }
    proof {
        crate::text::lemma_trim_start_skip(l@, i as int);
    }
    if i == len {
        true
    } else {
        l.get_char(i) == '#'
    }
}

/// Parses manifest lines into the ordered list of refs they denote.
///
/// Succeeds exactly when every line that is neither blank nor a comment is a
/// well-formed ref text; the result then lists those refs in line order.  The
/// error is the one [`crate::get_provider`] reports for the first offending
/// line.
pub fn parse_manifest(lines: &Vec<String>) -> (r: Result<Vec<ParcelRef>, ManifestError>)
    ensures
        ({
            let ms = spec_manifest_refs(lines_view(lines@));
            match r {
                Ok(v) => v@.len() == ms.len() && forall|k: int|
                    0 <= k < ms.len() ==> ms[k] == Some((#[trigger] v@[k])@),
                Err(_) => exists|k: int| 0 <= k < ms.len() && ms[k] is None,
            }
        }),
{
    let ghost lv = lines_view(lines@);
    let mut out: Vec<ParcelRef> = Vec::new();
    let mut i: usize = 0;
    while i < lines.len()
        invariant
            0 <= i <= lines@.len(),
            lv == lines_view(lines@),
            out@.len() == spec_manifest_refs(lv.subrange(0, i as int)).len(),
            forall|k: int|
                0 <= k < out@.len() ==> spec_manifest_refs(lv.subrange(0, i as int))[k] == Some(
                    (#[trigger] out@[k])@,
                ),
        decreases lines@.len() - i,
    {
        proof {
            assert(lv[i as int] == lines@[i as int]@);
            lemma_spec_manifest_refs_snoc(lv, i as int);
        }
        let line = &lines[i];
        if !line_skipped_exec(line.as_str()) {
            match crate::get_provider(line.as_str()) {
                Ok(p) => {
                    out.push(p);
                },
                Err(e) => {
                    proof {
                        lemma_spec_manifest_prefix_none(lv, i as int);
                    }
                    return Err(e);
                },
            }
        }
        i = i + 1;
    }
    proof {
        assert(lv.subrange(0, lines@.len() as int) =~= lv);
    }
    Ok(out)
}

/// A retained line that fails to parse puts a `None` into the spec result.
proof fn lemma_spec_manifest_prefix_none(lines: Seq<Seq<char>>, i: int)
    requires
        0 <= i < lines.len(),
        !line_skipped(lines[i]),
        spec_parse_ref(lines[i]) is None,
    ensures
        exists|k: int|
            0 <= k < spec_manifest_refs(lines).len() && spec_manifest_refs(lines)[k] is None,
    decreases lines.len(),
{
    if i == lines.len() - 1 {
        assert(lines.last() == lines[i]);
        let rest = spec_manifest_refs(lines.drop_last());
        assert(spec_manifest_refs(lines)[rest.len() as int] is None);
    } else {
        assert(lines.drop_last()[i] == lines[i]);
        lemma_spec_manifest_prefix_none(lines.drop_last(), i);
        let k = choose|k: int|
            0 <= k < spec_manifest_refs(lines.drop_last()).len() && spec_manifest_refs(
                lines.drop_last(),
            )[k] is None;
        if line_skipped(lines.last()) {
            assert(spec_manifest_refs(lines)[k] is None);
        } else {
            assert(spec_manifest_refs(lines)[k] is None);
        }
    }
}

} // verus!
