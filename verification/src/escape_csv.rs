use vstd::prelude::*;

verus! {

/// Whether a byte makes a CSV field need quoting: a double quote, a comma
/// or a newline.
pub open spec fn csv_special(ch: u8) -> bool {
    ch == 0x22u8 || ch == 0x2cu8 || ch == 0x0au8
}

/// The bytes of a field with every double quote doubled.
pub open spec fn csv_double_quotes(s: Seq<u8>) -> Seq<u8>
    decreases s.len(),
{
    if s.len() == 0 {
        seq![]
    } else {
        csv_double_quotes(s.drop_last()) + if s.last() == 0x22u8 {
            seq![0x22u8, 0x22u8]
        } else {
            seq![s.last()]
        }
    }
}

/// A field as CSV writes it when it needs quoting.
pub open spec fn csv_quoted(s: Seq<u8>) -> Seq<u8> {
    seq![0x22u8] + csv_double_quotes(s) + seq![0x22u8]
}

proof fn lemma_csv_double_append(a: Seq<u8>, b: Seq<u8>)
    ensures
        csv_double_quotes(a + b) == csv_double_quotes(a) + csv_double_quotes(b),
    decreases b.len(),
{
    if b.len() == 0 {
        assert(a + b =~= a);
        assert(csv_double_quotes(a) + Seq::<u8>::empty() =~= csv_double_quotes(a));
    } else {
        lemma_csv_double_append(a, b.drop_last());
        assert((a + b).drop_last() =~= a + b.drop_last());
        assert((a + b).last() == b.last());
        let t = if b.last() == 0x22u8 {
            seq![0x22u8, 0x22u8]
        } else {
            seq![b.last()]
        };
        assert(csv_double_quotes(a) + csv_double_quotes(b.drop_last()) + t =~= csv_double_quotes(a) + (
        csv_double_quotes(b.drop_last()) + t));
    }
}

/// A run of bytes without double quotes is written as it is.
proof fn lemma_csv_double_plain(s: Seq<u8>)
    requires
        forall|i: int| 0 <= i < s.len() ==> s[i] != 0x22u8,
    ensures
        csv_double_quotes(s) == s,
    decreases s.len(),
{
    if s.len() > 0 {
        lemma_csv_double_plain(s.drop_last());
        assert(s.drop_last().push(s.last()) =~= s);
    }
}

/// Wrapper of `memchr::memchr3`: the index of the first byte of `haystack`
/// equal to one of the three needles, or `None` when there is none (as the
/// crate's documentation states).
#[verifier::external_body]
fn memchr3(needle1: u8, needle2: u8, needle3: u8, haystack: &[u8]) -> (r: Option<usize>)
    ensures
        match r {
            Some(i) => i < haystack@.len() && (haystack@[i as int] == needle1 || haystack@[i as int]
                == needle2 || haystack@[i as int] == needle3) && forall|j: int|
                0 <= j < i ==> haystack@[j] != needle1 && haystack@[j] != needle2 && haystack@[j]
                    != needle3,
            None => forall|j: int|
                0 <= j < haystack@.len() ==> haystack@[j] != needle1 && haystack@[j] != needle2
                    && haystack@[j] != needle3,
        },
{
    memchr::memchr3(needle1, needle2, needle3, haystack)
}

/// Wrapper of `memchr::memchr`: the index of the first byte of `haystack`
/// equal to `needle`, or `None` when there is none (as the crate's
/// documentation states).
#[verifier::external_body]
pub(crate) fn memchr(needle: u8, haystack: &[u8]) -> (r: Option<usize>)
    ensures
        match r {
            Some(i) => i < haystack@.len() && haystack@[i as int] == needle && forall|j: int|
                0 <= j < i ==> haystack@[j] != needle,
            None => forall|j: int| 0 <= j < haystack@.len() ==> haystack@[j] != needle,
        },
{
    memchr::memchr(needle, haystack)
}

/// Whether `input` has to be quoted to stand as a CSV field.
pub fn escape_is_necessary(input: &[u8]) -> (r: bool)
    ensures
        r == exists|i: int| 0 <= i < input@.len() && #[trigger] csv_special(input@[i]),
{
    let found = memchr3(0x22u8, 0x2cu8, 0x0au8, input);
    match found {
        Some(i) => {
            assert(csv_special(input@[i as int]));
            true
        },
        None => false,
    }
}

fn write_all(output: &mut Vec<u8>, bytes: &[u8])
    ensures
        final(output)@ == old(output)@ + bytes@,
{
    let mut i: usize = 0;
    while i < bytes.len()
        invariant
            i <= bytes@.len(),
            output@ == old(output)@ + bytes@.take(i as int),
        decreases bytes@.len() - i,
    {
        output.push(bytes[i]);
        assert(bytes@.take(i + 1) =~= bytes@.take(i as int).push(bytes@[i as int]));
        i += 1;
    }
    assert(bytes@.take(bytes@.len() as int) =~= bytes@);
}

/// Writes `input` as a quoted CSV field: in double quotes, with every
/// double quote inside doubled.
pub fn escape(input: &[u8], output: &mut Vec<u8>)
    ensures
        final(output)@ == old(output)@ + csv_quoted(input@),
{
    output.push(0x22u8);
    let mut i: usize = 0;
    let ghost start = output@;
    proof {
        assert(input@.take(0) =~= Seq::<u8>::empty());
        assert(start + csv_double_quotes(input@.take(0)) =~= start);
    }
    loop
        invariant_except_break
            i <= input@.len(),
            start == old(output)@.push(0x22u8),
            output@ == start + csv_double_quotes(input@.take(i as int)),
        ensures
            output@ == start + csv_double_quotes(input@),
            start == old(output)@.push(0x22u8),
        decreases input@.len() - i,
    {
        let rest = &input[i..input.len()];
        let found = memchr(0x22u8, rest);
        match found {
            Some(off) => {
                let ghost before = output@;
                write_all(output, &rest[0..off + 1]);
                output.push(0x22u8);
                proof {
                    let seg = input@.subrange(i as int, i + off);
                    assert(forall|j: int| 0 <= j < seg.len() ==> seg[j] != 0x22u8) by {
                        assert forall|j: int| 0 <= j < seg.len() implies seg[j] != 0x22u8 by {
                            assert(seg[j] == rest@[j]);
                        }
                    }
                    lemma_csv_double_plain(seg);
                    assert(input@.take(i + off + 1) =~= input@.take(i as int) + (seg + seq![0x22u8]));
                    lemma_csv_double_append(input@.take(i as int), seg + seq![0x22u8]);
                    lemma_csv_double_append(seg, seq![0x22u8]);
                    assert(seq![0x22u8].drop_last() =~= Seq::<u8>::empty());
                    assert(seq![0x22u8].last() == 0x22u8);
                    assert(csv_double_quotes(Seq::<u8>::empty()) == Seq::<u8>::empty());
                    assert(csv_double_quotes(seq![0x22u8]) =~= seq![0x22u8, 0x22u8]);
                    assert(rest@.subrange(0, off + 1) =~= seg + seq![0x22u8]);
                    assert(output@ =~= start + csv_double_quotes(input@.take(i + off + 1)));
                }
                i = i + off + 1;
            },
            None => {
                write_all(output, rest);
                proof {
                    assert(rest@ =~= input@.skip(i as int));
                    lemma_csv_double_plain(rest@);
                    assert(input@ =~= input@.take(i as int) + rest@);
                    lemma_csv_double_append(input@.take(i as int), rest@);
                    assert(output@ =~= start + csv_double_quotes(input@));
                }
                break;
            },
        }
    }
    output.push(0x22u8);
    assert(output@ =~= old(output)@ + csv_quoted(input@));
}

} // verus!
