//! Import extraction. Module content is line-oriented text: every line that
//! starts with the marker `import ` (bytes) declares one import; the rest of
//! the line is the specifier.
use vstd::prelude::*;
use crate::bytes::{range_bytes, skip_bytes, starts_with, views};

verus! {

/// The bytes of `import `.
pub open spec fn import_marker() -> Seq<u8> {
    seq![105u8, 109u8, 112u8, 111u8, 114u8, 116u8, 32u8]
}

/// Length of the first line: index of the first newline, or the whole length.
pub open spec fn line_end(s: Seq<u8>) -> nat
    decreases s.len(),
{
    if s.len() == 0 {
        0
    } else if s[0] == 10u8 {
        0
    } else {
        1 + line_end(s.drop_first())
    }
}

pub proof fn lemma_line_end(s: Seq<u8>)
    ensures
        line_end(s) <= s.len(),
        forall|j: int| 0 <= j < line_end(s) ==> s[j] != 10u8,
        line_end(s) < s.len() ==> s[line_end(s) as int] == 10u8,
    decreases s.len(),
{
    if s.len() == 0 {
    } else if s[0] == 10u8 {
    } else {
        lemma_line_end(s.drop_first());
        assert forall|j: int| 0 <= j < line_end(s) implies s[j] != 10u8 by {
            if j > 0 {
                assert(s.drop_first()[j - 1] != 10u8);
            }
        }
        if line_end(s) < s.len() {
            assert(s.drop_first()[line_end(s.drop_first()) as int] == 10u8);
        }
    }
}

#[via_fn]
proof fn import_list_dec(s: Seq<u8>) {
    lemma_line_end(s);
}

/// The import specifiers declared in a content, in source order.
pub open spec fn import_list(s: Seq<u8>) -> Seq<Seq<u8>>
    decreases s.len(),
    via import_list_dec
{
    if s.len() == 0 {
        Seq::empty()
    } else {
        let n = line_end(s) as int;
        let line = s.take(n);
        let rest = if n < s.len() {
            s.skip(n + 1)
        } else {
            s.skip(n)
        };
        (if import_marker().is_prefix_of(line) {
            seq![line.skip(7)]
        } else {
            Seq::empty()
        }) + import_list(rest)
    }
}

/// Relates a scanned line to `line_end` of the suffix it starts.
proof fn lemma_line_end_at(s: Seq<u8>, i: int, j: int)
    requires
        0 <= i <= j <= s.len(),
        forall|t: int| i <= t < j ==> s[t] != 10u8,
        j == s.len() || s[j] == 10u8,
    ensures
        line_end(s.skip(i)) == j - i,
    decreases j - i,
{
    if i == j {
        if j < s.len() {
            assert(s.skip(i)[0] == s[i]);
        }
    } else {
        assert(s.skip(i)[0] == s[i]);
        lemma_line_end_at(s, i + 1, j);
        assert(s.skip(i).drop_first() =~= s.skip(i + 1));
    }
}

/// The marker as a byte vector.
pub fn import_marker_vec() -> (r: Vec<u8>)
    ensures
        r@ == import_marker(),
{
    let mut r: Vec<u8> = Vec::new();
    r.push(105u8);
    r.push(109u8);
    r.push(112u8);
    r.push(111u8);
    r.push(114u8);
    r.push(116u8);
    r.push(32u8);
    proof {
        assert(r@ =~= import_marker());
    }
    r
}

/// Extract the import specifiers from a module's content.
pub fn extract_imports(content: &Vec<u8>) -> (r: Vec<Vec<u8>>)
    ensures
        views(r@) == import_list(content@),
{
    let marker = import_marker_vec();
    let mut out: Vec<Vec<u8>> = Vec::new();
    let mut i: usize = 0;
    proof {
        assert(content@.skip(0) =~= content@);
        assert(views(out@) =~= Seq::<Seq<u8>>::empty());
    }
    while i < content.len()
        invariant
            i <= content.len(),
            marker@ == import_marker(),
            import_list(content@) == views(out@) + import_list(content@.skip(i as int)),
        decreases content.len() - i,
    {
        let ghost i0: int = i as int;
        let mut j: usize = i;
        while j < content.len() && content[j] != 10u8
            invariant
                i0 <= j <= content.len(),
                forall|t: int| i0 <= t < j ==> content@[t] != 10u8,
            decreases content.len() - j,
        {
            j = j + 1;
        }
        proof {
            lemma_line_end_at(content@, i as int, j as int);
        }
        let line = range_bytes(content, i, j);
        proof {
            assert(line@ =~= content@.skip(i as int).take(j - i));
        }
        if line.len() >= 7 && starts_with(&line, &marker) {
            let spec_part = skip_bytes(&line, 7);
            out.push(spec_part);
            proof {
                assert(views(out@) =~= views(out@.drop_last()).push(line@.skip(7)));
            }
        } else {
            proof {
                assert(!import_marker().is_prefix_of(line@));
            }
        }
        let next: usize = if j < content.len() {
            j + 1
        } else {
            j
        };
        proof {
            if j < content.len() {
                assert(content@.skip(i as int).skip((j - i) as int + 1) =~= content@.skip(
                    next as int,
                ));
            } else {
                assert(content@.skip(i as int).skip((j - i) as int) =~= content@.skip(
                    next as int,
                ));
            }
            assert(import_list(content@) =~= views(out@) + import_list(
                content@.skip(next as int),
            ));
        }
        i = next;
    }
    proof {
        assert(import_list(content@.skip(content@.len() as int)) =~= Seq::<Seq<u8>>::empty());
        assert(import_list(content@) =~= views(out@));
    }
    out
}

} // verus!
