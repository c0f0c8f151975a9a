//! Text primitives shared by the catalog, the ledger and the codec:
//! case folding, whitespace trimming and separator splitting.

use vstd::prelude::*;
use vstd::string::StrSliceExecFns;

verus! {

/// The case-folded form of a character sequence, as `str::to_lowercase`
/// computes it. The folding itself is not modelled; contracts relate
/// folded values to each other only.
pub uninterp spec fn lower_of(s: Seq<char>) -> Seq<char>;

/// Relies on `str::to_lowercase`: the result depends on the characters alone.
#[verifier::external_body]
pub(crate) fn lowercase(s: &str) -> (r: String)
    ensures
        r@ == lower_of(s@),
{
    s.to_lowercase()
}

/// Relies on `String::push`: appends exactly the one character.
#[verifier::external_body]
pub(crate) fn push_char(s: &mut String, c: char)
    ensures
        final(s)@ == old(s)@.push(c),
{
    s.push(c)
}

/// Character-wise string equality.
pub fn str_eq(a: &str, b: &str) -> (r: bool)
    ensures
        r == (a@ == b@),
{
    let n = a.unicode_len();
    if n != b.unicode_len() {
        return false;
    }
    let mut i: usize = 0;
    while i < n
        invariant
            n == a@.len(),
            n == b@.len(),
            i <= n,
            forall|j: int| 0 <= j < i ==> a@[j] == b@[j],
        decreases n - i,
    {
        if a.get_char(i) != b.get_char(i) {
            return false;
        }
        i += 1;
    }
    proof {
        assert(a@ =~= b@);
    }
    true
}

/// The characters with the Unicode White_Space property, which is what
/// trimming removes at the ends of a string.
pub open spec fn is_space_char(c: char) -> bool {
    let u = c as u32;
    u == 0x20 || (0x09 <= u && u <= 0x0d) || u == 0x85 || u == 0xa0 || u == 0x1680 || (0x2000 <= u
        && u <= 0x200a) || u == 0x2028 || u == 0x2029 || u == 0x202f || u == 0x205f || u == 0x3000
}

/// Whether a character counts as trimmable whitespace.
pub fn is_space(c: char) -> (r: bool)
    ensures
        r == is_space_char(c),
{
    let u = c as u32;
    u == 0x20 || (0x09 <= u && u <= 0x0d) || u == 0x85 || u == 0xa0 || u == 0x1680 || (0x2000 <= u
        && u <= 0x200a) || u == 0x2028 || u == 0x2029 || u == 0x202f || u == 0x205f || u == 0x3000
}

/// The sequence with its leading whitespace removed.
pub open spec fn trim_front(s: Seq<char>) -> Seq<char>
    decreases s.len(),
{
    if s.len() > 0 && is_space_char(s[0]) {
        trim_front(s.drop_first())
    } else {
        s
    }
}

/// The sequence with its trailing whitespace removed.
pub open spec fn trim_back(s: Seq<char>) -> Seq<char>
    decreases s.len(),
{
    if s.len() > 0 && is_space_char(s.last()) {
        trim_back(s.drop_last())
    } else {
        s
    }
}

/// The sequence with whitespace removed at both ends.
pub open spec fn spec_trim(s: Seq<char>) -> Seq<char> {
    trim_back(trim_front(s))
}

proof fn lemma_trim_front_skip(s: Seq<char>, a: int)
    requires
        0 <= a <= s.len(),
        forall|j: int| 0 <= j < a ==> is_space_char(#[trigger] s[j]),
        a == s.len() || !is_space_char(s[a]),
    ensures
        trim_front(s) == s.skip(a),
    decreases a,
{
    if a == 0 {
        assert(trim_front(s) =~= s.skip(0));
    } else {
        assert(is_space_char(s[0]));
        let t = s.drop_first();
        assert(t =~= s.skip(1));
        lemma_trim_front_skip(t, a - 1);
        assert(t.skip(a - 1) =~= s.skip(a));
    }
}

proof fn lemma_trim_back_take(s: Seq<char>, b: int)
    requires
        0 <= b <= s.len(),
        forall|j: int| b <= j < s.len() ==> is_space_char(#[trigger] s[j]),
        b == 0 || !is_space_char(s[b - 1]),
    ensures
        trim_back(s) == s.take(b),
    decreases s.len(),
{
    if s.len() == b {
        assert(trim_back(s) =~= s.take(b));
    } else {
        assert(is_space_char(s.last()));
        let t = s.drop_last();
        assert(t =~= s.take(s.len() - 1));
        lemma_trim_back_take(t, b);
        assert(t.take(b) =~= s.take(b));
    }
}

/// A sequence without whitespace is left alone by trimming.
pub proof fn lemma_trim_id(s: Seq<char>)
    requires
        forall|j: int| 0 <= j < s.len() ==> !is_space_char(#[trigger] s[j]),
    ensures
        spec_trim(s) == s,
{
    lemma_trim_front_skip(s, 0);
    assert(s.skip(0) =~= s);
    lemma_trim_back_take(s, s.len() as int);
    assert(s.take(s.len() as int) =~= s);
}

/// The string with whitespace removed at both ends, as `str::trim` leaves it.
pub fn trim(s: &str) -> (r: &str)
    ensures
        r@ == spec_trim(s@),
{
    let n = s.unicode_len();
    let mut a: usize = 0;
    while a < n && is_space(s.get_char(a))
        invariant
            0 <= a <= n,
            n == s@.len(),
            forall|j: int| 0 <= j < a ==> is_space_char(#[trigger] s@[j]),
        decreases n - a,
    {
        a += 1;
    }
    let mut b: usize = n;
    while b > a && is_space(s.get_char(b - 1))
        invariant
            a <= b <= n,
            n == s@.len(),
            forall|j: int| b <= j < n ==> is_space_char(#[trigger] s@[j]),
        decreases b,
    {
        b -= 1;
    }
    proof {
        lemma_trim_front_skip(s@, a as int);
        let u = s@.skip(a as int);
        assert(forall|j: int|
            b - a <= j < u.len() ==> is_space_char(#[trigger] u[j]) && u[j] == s@[j + a]);
        lemma_trim_back_take(u, b - a);
        assert(s@.subrange(a as int, b as int) =~= u.take(b - a));
    }
    s.substring_char(a, b)
}

/// How `split` cuts a sequence at a separator: the pieces between the
/// occurrences, in order, empty pieces included; one piece when the
/// separator does not occur, even in the empty sequence.
pub open spec fn spec_split(s: Seq<char>, sep: char) -> Seq<Seq<char>>
    decreases s.len(),
{
    if s.len() == 0 {
        seq![Seq::<char>::empty()]
    } else if s[0] == sep {
        seq![Seq::<char>::empty()] + spec_split(s.drop_first(), sep)
    } else {
        let rest = spec_split(s.drop_first(), sep);
        seq![seq![s[0]] + rest[0]] + rest.drop_first()
    }
}

/// Splitting yields at least one piece.
pub proof fn lemma_split_len_pos(s: Seq<char>, sep: char)
    ensures
        spec_split(s, sep).len() >= 1,
    decreases s.len(),
{
    if s.len() > 0 {
        lemma_split_len_pos(s.drop_first(), sep);
    }
}

/// A sequence free of the separator is one piece.
pub proof fn lemma_split_no_sep(s: Seq<char>, sep: char)
    requires
        forall|j: int| 0 <= j < s.len() ==> #[trigger] s[j] != sep,
    ensures
        spec_split(s, sep) == seq![s],
    decreases s.len(),
{
    if s.len() == 0 {
        assert(spec_split(s, sep) =~~= seq![s]);
    } else {
        lemma_split_no_sep(s.drop_first(), sep);
        assert(seq![s[0]] + s.drop_first() =~= s);
        assert(spec_split(s, sep) =~~= seq![s]);
    }
}

/// Splitting cuts exactly at the first separator: what stands before it is
/// the first piece, and the rest splits on its own.
pub proof fn lemma_split_concat(a: Seq<char>, b: Seq<char>, sep: char)
    requires
        forall|j: int| 0 <= j < a.len() ==> #[trigger] a[j] != sep,
    ensures
        spec_split(a + seq![sep] + b, sep) == seq![a] + spec_split(b, sep),
    decreases a.len(),
{
    let s = a + seq![sep] + b;
    if a.len() == 0 {
        assert(s[0] == sep);
        assert(s.drop_first() =~= b);
        assert(spec_split(s, sep) =~~= seq![a] + spec_split(b, sep));
    } else {
        assert(s[0] == a[0]);
        assert(s[0] != sep);
        assert(s.drop_first() =~= a.drop_first() + seq![sep] + b);
        lemma_split_concat(a.drop_first(), b, sep);
        let rest = spec_split(s.drop_first(), sep);
        lemma_split_len_pos(b, sep);
        assert(rest[0] == a.drop_first());
        assert(seq![s[0]] + rest[0] =~= a);
        assert(rest.drop_first() =~= spec_split(b, sep));
        assert(spec_split(s, sep) =~~= seq![a] + spec_split(b, sep));
    }
}

/// The pieces of `s` between occurrences of `sep`, as `str::split` hands
/// them out.
pub fn split_char(s: &str, sep: char) -> (r: Vec<String>)
    ensures
        r@.map_values(|f: String| f@) == spec_split(s@, sep),
        r@.len() >= 1,
{
    let n = s.unicode_len();
    let mut fields: Vec<String> = Vec::new();
    let mut cur = String::new();
    let mut i: usize = 0;
    proof {
        assert(s@.skip(0) =~= s@);
        assert(fields@.map_values(|f: String| f@) =~= Seq::<Seq<char>>::empty());
    }
    while i < n
        invariant
            0 <= i <= n,
            n == s@.len(),
            spec_split(s@, sep) == fields@.map_values(|f: String| f@) + prepend_first(
                cur@,
                spec_split(s@.skip(i as int), sep),
            ),
        decreases n - i,
    {
        let c = s.get_char(i);
        let ghost m = |f: String| f@;
        let ghost f0 = fields@.map_values(m);
        let ghost cur0 = cur@;
        let ghost tail = s@.skip(i as int);
        let ghost rest = spec_split(s@.skip(i as int + 1), sep);
        proof {
            assert(tail[0] == s@[i as int]);
            assert(tail.drop_first() =~= s@.skip(i as int + 1));
            lemma_split_len_pos(s@.skip(i as int + 1), sep);
        }
        if c == sep {
            let done = cur;
            cur = String::new();
            fields.push(done);
            proof {
                assert(spec_split(tail, sep) == seq![Seq::<char>::empty()] + rest);
                assert(prepend_first(cur0, spec_split(tail, sep)) =~~= seq![cur0] + rest);
                assert(fields@.map_values(m) =~= f0.push(cur0));
                assert(prepend_first(cur@, rest) =~~= rest);
                assert(fields@.map_values(m) + prepend_first(cur@, rest) =~~= f0 + (seq![cur0]
                    + rest));
            }
        } else {
            push_char(&mut cur, c);
            proof {
                assert(spec_split(tail, sep) == seq![seq![c] + rest[0]] + rest.drop_first());
                assert(cur@ =~= cur0.push(c));
                assert(cur0 + (seq![c] + rest[0]) =~= cur@ + rest[0]);
                assert(prepend_first(cur0, spec_split(tail, sep)) =~~= prepend_first(cur@, rest));
            }
        }
        i += 1;
    }
    fields.push(cur);
    proof {
        let m = |f: String| f@;
        assert(s@.skip(n as int) =~= Seq::<char>::empty());
        let last = prepend_first(cur@, spec_split(Seq::<char>::empty(), sep));
        assert(last =~~= seq![cur@]);
        assert(fields@.map_values(m) =~~= spec_split(s@, sep));
    }
    fields
}

/// The split with its first piece extended at the front by `p`.
pub open spec fn prepend_first(p: Seq<char>, pieces: Seq<Seq<char>>) -> Seq<Seq<char>> {
    seq![p + pieces[0]] + pieces.drop_first()
}

} // verus!
