//! Signatures that tell events apart.
//!
//! Events with the same level, message, target and fields share a signature and
//! are throttled together. A signature is a 64-bit digest of the words that
//! spell out those parts.

use vstd::prelude::*;

use crate::domain::fields;
use crate::domain::fields::FieldMap;
use crate::domain::text;
use crate::domain::text::append_hexadecimal;

verus! {

/// Digest of an event without any parts.
pub const DIGEST_START: u64 = 0xcbf2_9ce4_8422_2325;

/// Factor by which each word is mixed into a digest.
pub const DIGEST_FACTOR: u64 = 0x0000_0100_0000_01b3;

/// A digest after one more word.
pub open spec fn mixed(digest: u64, word: u64) -> u64 {
    (digest ^ word).wrapping_mul(DIGEST_FACTOR)
}

/// A digest after a list of words.
pub open spec fn digested(digest: u64, words: Seq<u64>) -> u64
    decreases words.len(),
{
    if words.len() == 0 {
        digest
    } else {
        mixed(digested(digest, words.drop_last()), words.last())
    }
}

/// The words of a text: its length, then its characters.
pub open spec fn text_words(s: Seq<char>) -> Seq<u64> {
    seq![s.len() as u64] + Seq::new(s.len(), |i: int| s[i] as u64)
}

/// The words of a target: whether there is one, then its text.
pub open spec fn target_words(target: Option<Seq<char>>) -> Seq<u64> {
    match target {
        None => seq![0u64],
        Some(t) => seq![1u64] + text_words(t),
    }
}

/// The words of a list of fields: names and values in turn.
pub open spec fn field_words(pairs: Seq<(Seq<char>, Seq<char>)>) -> Seq<u64>
    decreases pairs.len(),
{
    if pairs.len() == 0 {
        seq![]
    } else {
        text_words(pairs[0].0) + text_words(pairs[0].1) + field_words(pairs.drop_first())
    }
}

/// The words that spell out an event.
pub open spec fn event_words(
    level: Seq<char>,
    message: Seq<char>,
    pairs: Seq<(Seq<char>, Seq<char>)>,
    target: Option<Seq<char>>,
) -> Seq<u64> {
    text_words(level) + text_words(message) + target_words(target) + field_words(pairs)
}

/// The digest of an event.
pub open spec fn event_digest(
    level: Seq<char>,
    message: Seq<char>,
    pairs: Seq<(Seq<char>, Seq<char>)>,
    target: Option<Seq<char>>,
) -> u64 {
    digested(DIGEST_START, event_words(level, message, pairs, target))
}

/// The text behind an optional string.
pub open spec fn optional_text(s: Option<&str>) -> Option<Seq<char>> {
    match s {
        None => None,
        Some(t) => Some(t@),
    }
}

/// Identifies events that are throttled together.
#[derive(Debug, Clone, Copy, PartialEq, Eq, PartialOrd, Ord, Hash, Structural)]
pub struct EventSignature {
    /// The digest of the event.
    pub digest: u64,
}

impl EventSignature {
    /// Computes the signature of an event.
    pub fn new(
        level: &str,
        message: &str,
        fields: &FieldMap,
        target: Option<&str>,
    ) -> (r: EventSignature)
        ensures
            r.digest == event_digest(level@, message@, fields.pairs(), optional_text(target)),
            fields.pairs() == fields::listed(fields@),
    {
        let mut digest: u64 = digest_text(DIGEST_START, level);
        digest = digest_text(digest, message);
        match target {
            None => {
                digest = (digest ^ 0u64).wrapping_mul(DIGEST_FACTOR);
            },
            Some(t) => {
                digest = (digest ^ 1u64).wrapping_mul(DIGEST_FACTOR);
                digest = digest_text(digest, t);
            },
        }
        let ghost head = text_words(level@) + text_words(message@) + target_words(
            optional_text(target),
        );
        proof {
            let a = text_words(level@);
            let b = text_words(message@);
            lemma_digest_in_parts(DIGEST_START, a, b);
            lemma_digest_in_parts(DIGEST_START, a + b, target_words(optional_text(target)));
            match target {
                None => {
                    lemma_digest_of_one(digested(DIGEST_START, a + b), 0u64);
                },
                Some(t) => {
                    let d = digested(DIGEST_START, a + b);
                    lemma_digest_in_parts(d, seq![1u64], text_words(t@));
                    lemma_digest_of_one(d, 1u64);
                },
            }
        }
        assert(digest == digested(DIGEST_START, head));
        let count = fields.len();
        let mut i: usize = 0;
        assert(field_words(fields.pairs().take(0)) =~= Seq::<u64>::empty());
        assert(head + field_words(fields.pairs().take(0)) =~= head);
        while i < count
            invariant
                count == fields.pairs().len(),
                i <= count,
                digest == digested(
                    DIGEST_START,
                    head + field_words(fields.pairs().take(i as int)),
                ),
            decreases count - i,
        {
            let field = fields.field_at(i);
            let ghost before = digest;
            digest = digest_text(digest, field.name.as_str());
            digest = digest_text(digest, field.value.as_str());
            proof {
                let older = fields.pairs().take(i as int);
                let newer = fields.pairs().take(i + 1);
                let name = text_words(fields.pairs()[i as int].0);
                let value = text_words(fields.pairs()[i as int].1);
                lemma_field_words_extend(older, fields.pairs()[i as int]);
                assert(newer =~= older.push(fields.pairs()[i as int]));
                lemma_digest_in_parts(before, name, value);
                lemma_digest_in_parts(DIGEST_START, head + field_words(older), name + value);
                assert(head + field_words(newer) =~= (head + field_words(older)) + (name + value));
            }
            i += 1;
        }
        assert(fields.pairs().take(count as int) =~= fields.pairs());
        EventSignature { digest }
    }

    /// The signature of an event that has a level and a message only.
    pub fn simple(level: &str, message: &str) -> (r: EventSignature)
        ensures
            r.digest == event_digest(
                level@,
                message@,
                Seq::<(Seq<char>, Seq<char>)>::empty(),
                None,
            ),
    {
        EventSignature::new(level, message, &FieldMap::new(), None)
    }

    /// The signature as text: its digest in sixteen hexadecimal digits.
    pub fn to_string(&self) -> (r: String)
        ensures
            r@ == text::hexadecimal(self.digest as nat, 16),
    {
        let mut out = String::new();
        append_hexadecimal(&mut out, self.digest, 16);
        assert(out@ =~= text::hexadecimal(self.digest as nat, 16));
        out
    }
}

/// Mixes the words of a text into a digest.
fn digest_text(digest: u64, s: &str) -> (r: u64)
    ensures
        r == digested(digest, text_words(s@)),
{
    let count: u64 = s.unicode_len() as u64;
    let mut d: u64 = (digest ^ count).wrapping_mul(DIGEST_FACTOR);
    let ghost whole = Seq::new(s@.len(), |i: int| s@[i] as u64);
    proof {
        lemma_digest_of_one(digest, count);
        assert(seq![s@.len() as u64] + whole.take(0) =~= seq![count]);
    }
    for c in it: s.chars()
        invariant
            it.seq() == s@,
            whole == Seq::new(s@.len(), |i: int| s@[i] as u64),
            d == digested(digest, seq![s@.len() as u64] + whole.take(it.index() as int)),
    {
        d = (d ^ (c as u64)).wrapping_mul(DIGEST_FACTOR);
        proof {
            let older = seq![s@.len() as u64] + whole.take(it.index() as int);
            let newer = seq![s@.len() as u64] + whole.take(it.index() + 1);
            assert(newer.drop_last() =~= older);
            assert(newer.last() == c as u64);
        }
    }
    assert(whole.take(s@.len() as int) =~= whole);
    d
}

/// The digest of a single word.
proof fn lemma_digest_of_one(digest: u64, word: u64)
    ensures
        digested(digest, seq![word]) == mixed(digest, word),
{
    reveal_with_fuel(digested, 2);
    assert(seq![word].drop_last() =~= Seq::<u64>::empty());
}

/// A digest can be computed part by part.
proof fn lemma_digest_in_parts(digest: u64, a: Seq<u64>, b: Seq<u64>)
    ensures
        digested(digest, a + b) == digested(digested(digest, a), b),
    decreases b.len(),
{
    if b.len() == 0 {
        assert(a + b =~= a);
    } else {
        assert((a + b).drop_last() =~= a + b.drop_last());
        lemma_digest_in_parts(digest, a, b.drop_last());
    }
}

/// One more field at the end adds the words of its name and value.
proof fn lemma_field_words_extend(
    pairs: Seq<(Seq<char>, Seq<char>)>,
    pair: (Seq<char>, Seq<char>),
)
    ensures
        field_words(pairs.push(pair)) == field_words(pairs) + text_words(pair.0) + text_words(
            pair.1,
        ),
    decreases pairs.len(),
{
    let more = pairs.push(pair);
    if pairs.len() == 0 {
        assert(more.drop_first() =~= pairs);
        assert(field_words(more) =~= field_words(pairs) + text_words(pair.0) + text_words(pair.1));
    } else {
        assert(more.drop_first() =~= pairs.drop_first().push(pair));
        lemma_field_words_extend(pairs.drop_first(), pair);
        assert(field_words(more) =~= field_words(pairs) + text_words(pair.0) + text_words(pair.1));
    }
}

/// The order in which fields were given does not count: events with the same
/// level, message, target and map of fields have the same signature.
pub proof fn lemma_signature_follows_field_map(
    level: Seq<char>,
    message: Seq<char>,
    target: Option<Seq<char>>,
    p: Seq<(Seq<char>, Seq<char>)>,
    q: Seq<(Seq<char>, Seq<char>)>,
)
    requires
        fields::ordered(p),
        fields::ordered(q),
        fields::map_of(p) == fields::map_of(q),
    ensures
        event_digest(level, message, p, target) == event_digest(level, message, q, target),
{
    fields::lemma_ordered_list_is_canonical(p, q);
}

/// Whether a text is short enough for its length to be one word.
pub open spec fn word_sized(s: Seq<char>) -> bool {
    s.len() <= u64::MAX
}

/// Whether all parts of an event are short enough for their lengths to be words.
pub open spec fn event_word_sized(
    level: Seq<char>,
    message: Seq<char>,
    pairs: Seq<(Seq<char>, Seq<char>)>,
    target: Option<Seq<char>>,
) -> bool {
    &&& word_sized(level)
    &&& word_sized(message)
    &&& target matches Some(t) ==> word_sized(t)
    &&& forall|i: int|
        0 <= i < pairs.len() ==> word_sized((#[trigger] pairs[i]).0) && word_sized(pairs[i].1)
}

/// Different characters are different words.
proof fn lemma_char_word_readable(c: char, d: char)
    requires
        c as u64 == d as u64,
    ensures
        c == d,
{
}

/// The words of a text can be told from what follows them.
proof fn lemma_text_words_readable(a: Seq<char>, b: Seq<char>, x: Seq<u64>, y: Seq<u64>)
    requires
        word_sized(a),
        word_sized(b),
        text_words(a) + x == text_words(b) + y,
    ensures
        a == b,
        x == y,
{
    let left = text_words(a) + x;
    let right = text_words(b) + y;
    assert(left[0] == a.len() as u64);
    assert(right[0] == b.len() as u64);
    assert(a.len() == b.len());
    assert forall|i: int| 0 <= i < a.len() implies a[i] == b[i] by {
        assert(left[i + 1] == a[i] as u64);
        assert(right[i + 1] == b[i] as u64);
        lemma_char_word_readable(a[i], b[i]);
    }
    assert(a =~= b);
    assert(x =~= left.skip(a.len() as int + 1));
    assert(y =~= right.skip(a.len() as int + 1));
}

/// The words of a list of fields determine the list.
proof fn lemma_field_words_readable(
    p: Seq<(Seq<char>, Seq<char>)>,
    q: Seq<(Seq<char>, Seq<char>)>,
)
    requires
        forall|i: int|
            0 <= i < p.len() ==> word_sized((#[trigger] p[i]).0) && word_sized(p[i].1),
        forall|i: int|
            0 <= i < q.len() ==> word_sized((#[trigger] q[i]).0) && word_sized(q[i].1),
        field_words(p) == field_words(q),
    ensures
        p == q,
    decreases p.len(),
{
    if p.len() == 0 || q.len() == 0 {
        if p.len() > 0 {
            assert(field_words(p).len() > 0);
        }
        if q.len() > 0 {
            assert(field_words(q).len() > 0);
        }
        assert(p =~= q);
    } else {
        let p1 = p.drop_first();
        let q1 = q.drop_first();
        let px = text_words(p[0].1) + field_words(p1);
        let qx = text_words(q[0].1) + field_words(q1);
        assert(field_words(p) =~= text_words(p[0].0) + px);
        assert(field_words(q) =~= text_words(q[0].0) + qx);
        lemma_text_words_readable(p[0].0, q[0].0, px, qx);
        lemma_text_words_readable(p[0].1, q[0].1, field_words(p1), field_words(q1));
        lemma_field_words_readable(p1, q1);
        assert(p =~= seq![p[0]] + p1);
        assert(q =~= seq![q[0]] + q1);
    }
}

/// Events that differ in level, message, target or any field are spelled out
/// by different words, so that only a collision of the 64-bit digest can give
/// them the same signature.
pub proof fn lemma_different_events_have_different_words(
    level1: Seq<char>,
    message1: Seq<char>,
    p1: Seq<(Seq<char>, Seq<char>)>,
    target1: Option<Seq<char>>,
    level2: Seq<char>,
    message2: Seq<char>,
    p2: Seq<(Seq<char>, Seq<char>)>,
    target2: Option<Seq<char>>,
)
    requires
        event_word_sized(level1, message1, p1, target1),
        event_word_sized(level2, message2, p2, target2),
        event_words(level1, message1, p1, target1) == event_words(level2, message2, p2, target2),
    ensures
        level1 == level2,
        message1 == message2,
        p1 == p2,
        target1 == target2,
{
    let t1 = target_words(target1) + field_words(p1);
    let t2 = target_words(target2) + field_words(p2);
    assert(event_words(level1, message1, p1, target1) =~= text_words(level1) + (text_words(message1)
        + t1));
    assert(event_words(level2, message2, p2, target2) =~= text_words(level2) + (text_words(message2)
        + t2));
    lemma_text_words_readable(level1, level2, text_words(message1) + t1, text_words(message2) + t2);
    lemma_text_words_readable(message1, message2, t1, t2);
    assert(t1[0] == t2[0]);
    match (target1, target2) {
        (Some(a), Some(b)) => {
            assert(t1.skip(1) =~= text_words(a) + field_words(p1));
            assert(t2.skip(1) =~= text_words(b) + field_words(p2));
            lemma_text_words_readable(a, b, field_words(p1), field_words(p2));
        },
        (None, None) => {
            assert(t1.skip(1) =~= field_words(p1));
            assert(t2.skip(1) =~= field_words(p2));
        },
        _ => {},
    }
    lemma_field_words_readable(p1, p2);
}

/// Multiplying 64-bit words by the factor of the digest maps different words to
/// different words: the factor is odd, so that it has an inverse.
proof fn lemma_factor_keeps_words_apart(a: u64, b: u64)
    requires
        a.wrapping_mul(DIGEST_FACTOR) == b.wrapping_mul(DIGEST_FACTOR),
    ensures
        a == b,
{
    let range: int = 0x1_0000_0000_0000_0000;
    let factor: int = 0x0000_0100_0000_01b3;
    let inverse: int = 0xce96_5057_aff6_957b;
    let rest: int = 887_285_111_055;
    assert(0x0000_0100_0000_01b3 * 0xce96_5057_aff6_957b == 1 + 887_285_111_055
        * 0x1_0000_0000_0000_0000) by (nonlinear_arith);
    let x: int = a - b;
    let p: int = (a * factor) / range;
    let q: int = (b * factor) / range;
    assert(a * factor == p * range + (a * factor) % range);
    assert(b * factor == q * range + (b * factor) % range);
    assert((a * factor) % range == (b * factor) % range);
    assert(x * factor == (p - q) * range);
    let d: int = p - q;
    assert(x == range * (d * inverse - rest * x)) by (nonlinear_arith)
        requires
            x * factor == d * range,
            factor * inverse == 1 + rest * range,
    ;
    let k: int = d * inverse - rest * x;
    assert(k == 0) by (nonlinear_arith)
        requires
            x == range * k,
            -range < x < range,
            range == 0x1_0000_0000_0000_0000,
    ;
}

/// Each word enters a digest through a bijection: different words give different digests,
/// and so do different digests before.
proof fn lemma_mixing_keeps_words_apart(d: u64, e: u64, v: u64, w: u64)
    requires
        mixed(d, v) == mixed(e, w),
    ensures
        d == e ==> v == w,
        v == w ==> d == e,
{
    lemma_factor_keeps_words_apart(d ^ v, e ^ w);
    assert(d == e && d ^ v == e ^ w ==> v == w) by (bit_vector);
    assert(v == w && d ^ v == e ^ w ==> d == e) by (bit_vector);
}

/// Words that follow keep two digests apart.
proof fn lemma_words_keep_digests_apart(d: u64, e: u64, words: Seq<u64>)
    requires
        d != e,
    ensures
        digested(d, words) != digested(e, words),
    decreases words.len(),
{
    if words.len() > 0 {
        lemma_words_keep_digests_apart(d, e, words.drop_last());
        if digested(d, words) == digested(e, words) {
            lemma_mixing_keeps_words_apart(
                digested(d, words.drop_last()),
                digested(e, words.drop_last()),
                words.last(),
                words.last(),
            );
        }
    }
}

/// Two texts of the same length that differ in one character.
pub open spec fn differ_in_one_character(a: Seq<char>, b: Seq<char>) -> bool {
    a.len() == b.len() && exists|i: int|
        0 <= i < a.len() && a[i] != #[trigger] b[i] && a.remove(i) == b.remove(i)
}

/// A text that differs in one character makes a difference to the digest of all words
/// among which it stands.
proof fn lemma_one_character_matters(
    digest: u64,
    before: Seq<u64>,
    a: Seq<char>,
    b: Seq<char>,
    after: Seq<u64>,
)
    requires
        differ_in_one_character(a, b),
    ensures
        digested(digest, before + text_words(a) + after) != digested(
            digest,
            before + text_words(b) + after,
        ),
{
    let i = choose|i: int|
        0 <= i < a.len() && a[i] != #[trigger] b[i] && a.remove(i) == b.remove(i);
    let head = seq![a.len() as u64] + Seq::new(i as nat, |k: int| a[k] as u64);
    let tail = Seq::new((a.len() - i - 1) as nat, |k: int| a[k + i + 1] as u64);
    assert forall|k: int| 0 <= k < i implies a[k] == b[k] by {
        assert(a.remove(i)[k] == a[k] && b.remove(i)[k] == b[k]);
    }
    assert forall|k: int| i < k < a.len() implies a[k] == b[k] by {
        assert(a.remove(i)[k - 1] == a[k] && b.remove(i)[k - 1] == b[k]);
    }
    assert(text_words(a) =~= head + seq![a[i] as u64] + tail);
    assert(text_words(b) =~= head + seq![b[i] as u64] + tail);
    let start = before + head;
    let rest = tail + after;
    assert(before + text_words(a) + after =~= start + seq![a[i] as u64] + rest);
    assert(before + text_words(b) + after =~= start + seq![b[i] as u64] + rest);
    lemma_digest_in_parts(digest, start + seq![a[i] as u64], rest);
    lemma_digest_in_parts(digest, start + seq![b[i] as u64], rest);
    lemma_digest_in_parts(digest, start, seq![a[i] as u64]);
    lemma_digest_in_parts(digest, start, seq![b[i] as u64]);
    let d = digested(digest, start);
    lemma_digest_of_one(d, a[i] as u64);
    lemma_digest_of_one(d, b[i] as u64);
    if mixed(d, a[i] as u64) == mixed(d, b[i] as u64) {
        lemma_mixing_keeps_words_apart(d, d, a[i] as u64, b[i] as u64);
        lemma_char_word_readable(a[i], b[i]);
    }
    lemma_words_keep_digests_apart(mixed(d, a[i] as u64), mixed(d, b[i] as u64), rest);
}

/// The words of a list of fields, around one of them.
proof fn lemma_field_words_around(pairs: Seq<(Seq<char>, Seq<char>)>, i: int)
    requires
        0 <= i < pairs.len(),
    ensures
        field_words(pairs) == field_words(pairs.take(i)) + text_words(pairs[i].0) + text_words(
            pairs[i].1,
        ) + field_words(pairs.skip(i + 1)),
    decreases i,
{
    if i == 0 {
        assert(pairs.take(0) =~= Seq::empty());
        assert(pairs.skip(1) =~= pairs.drop_first());
        assert(field_words(pairs) =~= field_words(pairs.take(0)) + text_words(pairs[0].0)
            + text_words(pairs[0].1) + field_words(pairs.skip(1)));
    } else {
        let rest = pairs.drop_first();
        lemma_field_words_around(rest, i - 1);
        assert(rest.take(i - 1) =~= pairs.take(i).drop_first());
        assert(rest.skip(i) =~= pairs.skip(i + 1));
        assert(pairs.take(i)[0] == pairs[0]);
        assert(field_words(pairs) =~= field_words(pairs.take(i)) + text_words(pairs[i].0)
            + text_words(pairs[i].1) + field_words(pairs.skip(i + 1)));
    }
}

/// Every field value tells events apart: two events of the same level, message, target
/// and field names, whose values differ in a single character of one field, have
/// different digests, whichever place that field has among however many there are.
pub proof fn lemma_field_value_tells_digests_apart(
    level: Seq<char>,
    message: Seq<char>,
    target: Option<Seq<char>>,
    p: Seq<(Seq<char>, Seq<char>)>,
    q: Seq<(Seq<char>, Seq<char>)>,
    i: int,
)
    requires
        p.len() == q.len(),
        0 <= i < p.len(),
        forall|k: int| 0 <= k < p.len() && k != i ==> #[trigger] p[k] == q[k],
        p[i].0 == q[i].0,
        differ_in_one_character(p[i].1, q[i].1),
    ensures
        event_digest(level, message, p, target) != event_digest(level, message, q, target),
{
    let head = text_words(level) + text_words(message) + target_words(target);
    let before = head + field_words(p.take(i)) + text_words(p[i].0);
    let after = field_words(p.skip(i + 1));
    lemma_field_words_around(p, i);
    lemma_field_words_around(q, i);
    assert(p.take(i) =~= q.take(i));
    assert(p.skip(i + 1) =~= q.skip(i + 1));
    assert(event_words(level, message, p, target) =~= before + text_words(p[i].1) + after);
    assert(event_words(level, message, q, target) =~= before + text_words(q[i].1) + after);
    lemma_one_character_matters(DIGEST_START, before, p[i].1, q[i].1, after);
}

/// Every field name tells events apart: two events of the same level, message, target
/// and field values, whose names differ in a single character of one field, have
/// different digests.
pub proof fn lemma_field_name_tells_digests_apart(
    level: Seq<char>,
    message: Seq<char>,
    target: Option<Seq<char>>,
    p: Seq<(Seq<char>, Seq<char>)>,
    q: Seq<(Seq<char>, Seq<char>)>,
    i: int,
)
    requires
        p.len() == q.len(),
        0 <= i < p.len(),
        forall|k: int| 0 <= k < p.len() && k != i ==> #[trigger] p[k] == q[k],
        p[i].1 == q[i].1,
        differ_in_one_character(p[i].0, q[i].0),
    ensures
        event_digest(level, message, p, target) != event_digest(level, message, q, target),
{
    let head = text_words(level) + text_words(message) + target_words(target);
    let before = head + field_words(p.take(i));
    let after = text_words(p[i].1) + field_words(p.skip(i + 1));
    lemma_field_words_around(p, i);
    lemma_field_words_around(q, i);
    assert(p.take(i) =~= q.take(i));
    assert(p.skip(i + 1) =~= q.skip(i + 1));
    assert(event_words(level, message, p, target) =~= before + text_words(p[i].0) + after);
    assert(event_words(level, message, q, target) =~= before + text_words(q[i].0) + after);
    lemma_one_character_matters(DIGEST_START, before, p[i].0, q[i].0, after);
}

/// Level, message and target tell events apart: two events that are the same but for a
/// single character of one of these have different digests.
pub proof fn lemma_level_message_and_target_tell_digests_apart(
    level: Seq<char>,
    message: Seq<char>,
    target: Seq<char>,
    pairs: Seq<(Seq<char>, Seq<char>)>,
    other: Seq<char>,
)
    ensures
        differ_in_one_character(level, other) ==> event_digest(level, message, pairs, Some(target))
            != event_digest(other, message, pairs, Some(target)),
        differ_in_one_character(message, other) ==> event_digest(
            level,
            message,
            pairs,
            Some(target),
        ) != event_digest(level, other, pairs, Some(target)),
        differ_in_one_character(target, other) ==> event_digest(
            level,
            message,
            pairs,
            Some(target),
        ) != event_digest(level, message, pairs, Some(other)),
        differ_in_one_character(level, other) ==> event_digest(level, message, pairs, None)
            != event_digest(other, message, pairs, None),
        differ_in_one_character(message, other) ==> event_digest(level, message, pairs, None)
            != event_digest(level, other, pairs, None),
{
    let fields = field_words(pairs);
    let none = Seq::<u64>::empty();
    assert forall|t: Option<Seq<char>>, l: Seq<char>| #[trigger]
        event_words(l, message, pairs, t) == none + text_words(l) + (text_words(message)
            + target_words(t) + fields) by {
        assert(event_words(l, message, pairs, t) =~= none + text_words(l) + (text_words(message)
            + target_words(t) + fields));
    }
    assert forall|t: Option<Seq<char>>, m: Seq<char>| #[trigger]
        event_words(level, m, pairs, t) == text_words(level) + text_words(m) + (target_words(t)
            + fields) by {
        assert(event_words(level, m, pairs, t) =~= text_words(level) + text_words(m) + (
        target_words(t) + fields));
    }
    let before = text_words(level) + text_words(message) + seq![1u64];
    assert forall|t: Seq<char>| #[trigger]
        event_words(level, message, pairs, Some(t)) == before + text_words(t) + fields by {
        assert(event_words(level, message, pairs, Some(t)) =~= before + text_words(t) + fields);
    }
    if differ_in_one_character(level, other) {
        lemma_one_character_matters(
            DIGEST_START,
            none,
            level,
            other,
            text_words(message) + target_words(Some(target)) + fields,
        );
        lemma_one_character_matters(
            DIGEST_START,
            none,
            level,
            other,
            text_words(message) + target_words(None) + fields,
        );
    }
    if differ_in_one_character(message, other) {
        lemma_one_character_matters(
            DIGEST_START,
            text_words(level),
            message,
            other,
            target_words(Some(target)) + fields,
        );
        lemma_one_character_matters(
            DIGEST_START,
            text_words(level),
            message,
            other,
            target_words(None) + fields,
        );
    }
    if differ_in_one_character(target, other) {
        lemma_one_character_matters(DIGEST_START, before, target, other, fields);
    }
}

/// The digest of an event is that of the words that spell it out, taken in one after
/// the other.
pub proof fn lemma_digest_takes_in_every_word(
    level: Seq<char>,
    message: Seq<char>,
    pairs: Seq<(Seq<char>, Seq<char>)>,
    target: Option<Seq<char>>,
)
    ensures
        event_digest(level, message, pairs, target) == event_words(
            level,
            message,
            pairs,
            target,
        ).fold_left(DIGEST_START, |d: u64, w: u64| mixed(d, w)),
{
    lemma_digest_is_a_fold(DIGEST_START, event_words(level, message, pairs, target));
}

proof fn lemma_digest_is_a_fold(digest: u64, words: Seq<u64>)
    ensures
        digested(digest, words) == words.fold_left(digest, |d: u64, w: u64| mixed(d, w)),
    decreases words.len(),
{
    if words.len() > 0 {
        lemma_digest_is_a_fold(digest, words.drop_last());
    }
}

/// The order of two words counts: taken in the other way round, two different words that
/// are no larger than characters give another digest.
proof fn lemma_order_of_words_matters(d: u64, v: u64, w: u64)
    requires
        v != w,
        v < 0x20_0000,
        w < 0x20_0000,
    ensures
        mixed(mixed(d, v), w) != mixed(mixed(d, w), v),
{
    if mixed(mixed(d, v), w) == mixed(mixed(d, w), v) {
        let x: u64 = d ^ v;
        let y: u64 = d ^ w;
        let p: u64 = mixed(d, v);
        let q: u64 = mixed(d, w);
        lemma_factor_keeps_words_apart(p ^ w, q ^ v);
        assert(x != y && x / 0x20_0000 == y / 0x20_0000) by (bit_vector)
            requires
                x == d ^ v,
                y == d ^ w,
                v != w,
                v < 0x20_0000,
                w < 0x20_0000,
        ;
        assert(p / 0x20_0000 == q / 0x20_0000) by (bit_vector)
            requires
                p ^ w == q ^ v,
                v < 0x20_0000,
                w < 0x20_0000,
        ;
        let range: int = 0x1_0000_0000_0000_0000;
        let factor: int = 0x0000_0100_0000_01b3;
        let a: int = (x * factor) / range;
        let b: int = (y * factor) / range;
        assert(x * factor == a * range + p);
        assert(y * factor == b * range + q);
        let apart: int = x - y;
        assert(-0x20_0000 < apart < 0x20_0000);
        assert(apart * factor == (a - b) * range + (p - q));
        assert(-0x20_0000 < p - q < 0x20_0000);
        assert(a - b == 0);
        assert(false);
    }
}

/// Characters are words of at most 21 bits.
proof fn lemma_character_is_small(c: char)
    ensures
        (c as u64) < 0x20_0000,
{
}

/// The order of the characters of a text counts: two neighbours that differ, the other way
/// round, give another digest of all words among which the text stands.
proof fn lemma_order_of_characters_matters(
    digest: u64,
    before: Seq<u64>,
    a: Seq<char>,
    i: int,
    after: Seq<u64>,
)
    requires
        0 <= i < a.len() - 1,
        a[i] != a[i + 1],
    ensures
        digested(digest, before + text_words(a) + after) != digested(
            digest,
            before + text_words(a.update(i, a[i + 1]).update(i + 1, a[i])) + after,
        ),
{
    let b = a.update(i, a[i + 1]).update(i + 1, a[i]);
    let v = a[i] as u64;
    let w = a[i + 1] as u64;
    let head = seq![a.len() as u64] + Seq::new(i as nat, |k: int| a[k] as u64);
    let tail = Seq::new((a.len() - i - 2) as nat, |k: int| a[k + i + 2] as u64);
    assert(text_words(a) =~= head + seq![v] + seq![w] + tail);
    assert(text_words(b) =~= head + seq![w] + seq![v] + tail);
    let start = before + head;
    let rest = tail + after;
    assert(before + text_words(a) + after =~= start + seq![v] + seq![w] + rest);
    assert(before + text_words(b) + after =~= start + seq![w] + seq![v] + rest);
    let d = digested(digest, start);
    lemma_digest_in_parts(digest, start + seq![v] + seq![w], rest);
    lemma_digest_in_parts(digest, start + seq![w] + seq![v], rest);
    lemma_digest_in_parts(digest, start + seq![v], seq![w]);
    lemma_digest_in_parts(digest, start + seq![w], seq![v]);
    lemma_digest_in_parts(digest, start, seq![v]);
    lemma_digest_in_parts(digest, start, seq![w]);
    lemma_digest_of_one(d, v);
    lemma_digest_of_one(d, w);
    lemma_digest_of_one(mixed(d, v), w);
    lemma_digest_of_one(mixed(d, w), v);
    if v == w {
        lemma_char_word_readable(a[i], a[i + 1]);
    }
    lemma_character_is_small(a[i]);
    lemma_character_is_small(a[i + 1]);
    lemma_order_of_words_matters(d, v, w);
    lemma_words_keep_digests_apart(mixed(mixed(d, v), w), mixed(mixed(d, w), v), rest);
}

/// The order of characters tells events apart: with two different neighbouring characters
/// of one field value the other way round, an event has another digest.
pub proof fn lemma_order_in_field_value_tells_digests_apart(
    level: Seq<char>,
    message: Seq<char>,
    target: Option<Seq<char>>,
    p: Seq<(Seq<char>, Seq<char>)>,
    i: int,
    k: int,
)
    requires
        0 <= i < p.len(),
        0 <= k < p[i].1.len() - 1,
        p[i].1[k] != p[i].1[k + 1],
    ensures
        event_digest(level, message, p, target) != event_digest(
            level,
            message,
            p.update(i, (p[i].0, p[i].1.update(k, p[i].1[k + 1]).update(k + 1, p[i].1[k]))),
            target,
        ),
{
    let value = p[i].1.update(k, p[i].1[k + 1]).update(k + 1, p[i].1[k]);
    let q = p.update(i, (p[i].0, value));
    let head = text_words(level) + text_words(message) + target_words(target);
    let before = head + field_words(p.take(i)) + text_words(p[i].0);
    let after = field_words(p.skip(i + 1));
    lemma_field_words_around(p, i);
    lemma_field_words_around(q, i);
    assert(p.take(i) =~= q.take(i));
    assert(p.skip(i + 1) =~= q.skip(i + 1));
    assert(event_words(level, message, p, target) =~= before + text_words(p[i].1) + after);
    assert(event_words(level, message, q, target) =~= before + text_words(value) + after);
    lemma_order_of_characters_matters(DIGEST_START, before, p[i].1, k, after);
}

/// As [`lemma_order_in_field_value_tells_digests_apart`], for the message of an event.
pub proof fn lemma_order_in_message_tells_digests_apart(
    level: Seq<char>,
    message: Seq<char>,
    target: Option<Seq<char>>,
    pairs: Seq<(Seq<char>, Seq<char>)>,
    k: int,
)
    requires
        0 <= k < message.len() - 1,
        message[k] != message[k + 1],
    ensures
        event_digest(level, message, pairs, target) != event_digest(
            level,
            message.update(k, message[k + 1]).update(k + 1, message[k]),
            pairs,
            target,
        ),
{
    let other = message.update(k, message[k + 1]).update(k + 1, message[k]);
    let after = target_words(target) + field_words(pairs);
    assert(event_words(level, message, pairs, target) =~= text_words(level) + text_words(message)
        + after);
    assert(event_words(level, other, pairs, target) =~= text_words(level) + text_words(other)
        + after);
    lemma_order_of_characters_matters(DIGEST_START, text_words(level), message, k, after);
}

} // verus!
