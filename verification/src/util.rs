//! Byte-level helpers around the decoder: splitting raw command
//! output into lines.

use vstd::prelude::*;

verus! {

/// Index of the first newline byte of `s`, or `s.len()` when there is
/// none.
pub open spec fn first_newline(s: Seq<u8>) -> nat
    decreases s.len(),
{
    if s.len() == 0 {
        0nat
    } else if s[0] == 10u8 {
        0nat
    } else {
        1 + first_newline(s.skip(1))
    }
}

/// The lines of `s`: each up to and including its newline byte, with
/// a last newline-less fragment kept whole.
pub open spec fn lines_spec(s: Seq<u8>) -> Seq<Seq<u8>>
    decreases s.len(),
{
    if s.len() == 0 {
        Seq::empty()
    } else {
        let i = first_newline(s);
        if i < s.len() {
            seq![s.take(i + 1 as int)] + lines_spec(s.skip(i + 1 as int))
        } else {
            seq![s]
        }
    }
}

/// The first newline lies where the first newline byte is: before it
/// nothing is a newline, and at it — if inside the sequence — one is.
proof fn lemma_first_newline_at(s: Seq<u8>, i: int)
    requires
        0 <= i <= s.len(),
        forall|k: int| 0 <= k < i ==> s[k] != 10u8,
        i < s.len() ==> s[i] == 10u8,
    ensures
        first_newline(s) == i,
    decreases i,
{
    if i > 0 {
        assert(s[0] != 10u8);
        lemma_first_newline_at(s.skip(1), i - 1);
    }
}

/// Splits raw bytes into lines. Every line but possibly the last ends
/// in the newline byte that closed it.
pub fn lines_from_bytes(data: Vec<u8>) -> (r: Vec<Vec<u8>>)
    ensures
        r.deep_view() == lines_spec(data@),
{
    let len: usize = data.len();
    let mut lines: Vec<Vec<u8>> = Vec::new();
    let mut start: usize = 0;
    proof {
        assert(lines.deep_view() =~~= Seq::<Seq<u8>>::empty());
        assert(data@.skip(0) =~= data@);
        assert(Seq::<Seq<u8>>::empty() + lines_spec(data@) =~~= lines_spec(data@));
    }
    while start < len
        invariant
            len == data@.len(),
            start <= len,
            lines_spec(data@) == lines.deep_view() + lines_spec(data@.skip(start as int)),
        decreases len - start,
    {
        let ghost lines_before = lines.deep_view();
        let ghost rest = data@.skip(start as int);
        let mut line: Vec<u8> = Vec::new();
        let mut j: usize = start;
        while j < len && data[j] != 10
            invariant
                len == data@.len(),
                start <= j <= len,
                line@ == data@.subrange(start as int, j as int),
                forall|k: int| start <= k < j ==> data@[k] != 10u8,
            decreases len - j,
        {
            line.push(data[j]);
            assert(line@ =~= data@.subrange(start as int, j + 1));
            j = j + 1;
        }
        proof {
            assert forall|k: int| 0 <= k < j - start implies rest[k] != 10u8 by {
                assert(rest[k] == data@[start + k]);
            }
            if j < len {
                assert(rest[j - start] == data@[j as int]);
            }
            lemma_first_newline_at(rest, j - start);
        }
        if j < len {
            line.push(data[j]);
            j = j + 1;
            proof {
                let i = first_newline(rest);
                assert(line@ =~= rest.take(i + 1 as int));
                assert(data@.skip(j as int) =~= rest.skip(i + 1 as int));
            }
        } else {
            proof {
                assert(line@ =~= rest);
                assert(data@.skip(j as int) =~= Seq::<u8>::empty());
            }
        }
        let ghost lv = line@;
        lines.push(line);
        start = j;
        proof {
            assert(lines.deep_view() =~~= lines_before.push(lv));
            assert(lines_before.push(lv) + lines_spec(data@.skip(start as int)) =~~= lines_before
                + (seq![lv] + lines_spec(data@.skip(start as int))));
        }
    }
    proof {
        assert(data@.skip(start as int) =~= Seq::<u8>::empty());
        assert(lines.deep_view() + Seq::<Seq<u8>>::empty() =~~= lines.deep_view());
    }
    lines
}

} // verus!
