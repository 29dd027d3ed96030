//! The canonical text form of a record's protocol content — its key references
//! and threshold combinations — and a strict parser for it. The form is the
//! JSON shape `{"keys":[{"host":..,"pk":..,"id":..},..],"sets":[[0,1],..]}`;
//! encoding and parsing invert each other, which is what lets a sender hand
//! the stripped record text to a receiver.

use vstd::prelude::*;

use crate::records::{Key, Sender};

verus! {

/// The character content of one key reference.
pub struct KeyModel {
    pub host: Seq<char>,
    pub pk: Seq<char>,
    pub id: Seq<char>,
}

/// The character content of a record's protocol part.
pub struct SenderModel {
    pub keys: Seq<KeyModel>,
    pub sets: Seq<Seq<u64>>,
}

/// The content of one key reference.
pub open spec fn spec_key_model(key: Key) -> KeyModel {
    KeyModel { host: key.host@, pk: key.pk@, id: key.id@ }
}

/// The content of a sender record.
pub open spec fn spec_sender_model(sender: Sender) -> SenderModel {
    SenderModel {
        keys: sender.keys@.map_values(|k: Key| spec_key_model(k)),
        sets: sender.sets.deep_view(),
    }
}

/// How one character is written inside a quoted string: quotes and backslashes
/// get a backslash, everything else stands as itself.
pub open spec fn spec_escape_char(c: char) -> Seq<char> {
    if c == '"' || c == '\\' {
        seq!['\\', c]
    } else {
        seq![c]
    }
}

/// A string's characters, escaped one by one.
pub open spec fn spec_escape(s: Seq<char>) -> Seq<char>
    decreases s.len(),
{
    if s.len() == 0 {
        Seq::empty()
    } else {
        spec_escape_char(s[0]) + spec_escape(s.drop_first())
    }
}

/// A quoted, escaped string.
pub open spec fn spec_encode_string(s: Seq<char>) -> Seq<char> {
    seq!['"'] + spec_escape(s) + seq!['"']
}

/// The decimal digit character for a value below ten.
pub open spec fn spec_digit_char(d: u64) -> char {
    if d == 0 {
        '0'
    } else if d == 1 {
        '1'
    } else if d == 2 {
        '2'
    } else if d == 3 {
        '3'
    } else if d == 4 {
        '4'
    } else if d == 5 {
        '5'
    } else if d == 6 {
        '6'
    } else if d == 7 {
        '7'
    } else if d == 8 {
        '8'
    } else {
        '9'
    }
}

/// A number in decimal, most significant digit first, no leading zeros.
pub open spec fn spec_digits(n: u64) -> Seq<char>
    decreases n,
{
    if n < 10 {
        seq![spec_digit_char(n)]
    } else {
        spec_digits(n / 10).push(spec_digit_char(n % 10))
    }
}

/// The opening of the record: `{"keys":[`.
pub open spec fn lit_keys_open() -> Seq<char> {
    seq!['{', '"', 'k', 'e', 'y', 's', '"', ':', '[']
}

/// The middle of the record: `],"sets":[`.
pub open spec fn lit_sets_mid() -> Seq<char> {
    seq![']', ',', '"', 's', 'e', 't', 's', '"', ':', '[']
}

/// The end of the record: `]}`.
pub open spec fn lit_record_close() -> Seq<char> {
    seq![']', '}']
}

/// The opening of one key: `{"host":`.
pub open spec fn lit_host_open() -> Seq<char> {
    seq!['{', '"', 'h', 'o', 's', 't', '"', ':']
}

/// Between a key's host and pk: `,"pk":`.
pub open spec fn lit_pk_mid() -> Seq<char> {
    seq![',', '"', 'p', 'k', '"', ':']
}

/// Between a key's pk and id: `,"id":`.
pub open spec fn lit_id_mid() -> Seq<char> {
    seq![',', '"', 'i', 'd', '"', ':']
}

/// One encoded key reference.
pub open spec fn spec_encode_key(key: KeyModel) -> Seq<char> {
    lit_host_open() + spec_encode_string(key.host) + lit_pk_mid() + spec_encode_string(key.pk)
        + lit_id_mid() + spec_encode_string(key.id) + seq!['}']
}

/// Comma-separated encoded key references.
pub open spec fn spec_encode_keys(keys: Seq<KeyModel>) -> Seq<char>
    decreases keys.len(),
{
    if keys.len() == 0 {
        Seq::empty()
    } else if keys.len() == 1 {
        spec_encode_key(keys[0])
    } else {
        spec_encode_key(keys[0]) + seq![','] + spec_encode_keys(keys.drop_first())
    }
}

/// Comma-separated decimal indices.
pub open spec fn spec_encode_indices(set: Seq<u64>) -> Seq<char>
    decreases set.len(),
{
    if set.len() == 0 {
        Seq::empty()
    } else if set.len() == 1 {
        spec_digits(set[0])
    } else {
        spec_digits(set[0]) + seq![','] + spec_encode_indices(set.drop_first())
    }
}

/// One encoded combination: `[` indices `]`.
pub open spec fn spec_encode_set(set: Seq<u64>) -> Seq<char> {
    seq!['['] + spec_encode_indices(set) + seq![']']
}

/// Comma-separated encoded combinations.
pub open spec fn spec_encode_sets(sets: Seq<Seq<u64>>) -> Seq<char>
    decreases sets.len(),
{
    if sets.len() == 0 {
        Seq::empty()
    } else if sets.len() == 1 {
        spec_encode_set(sets[0])
    } else {
        spec_encode_set(sets[0]) + seq![','] + spec_encode_sets(sets.drop_first())
    }
}

/// The canonical text of a record's protocol content.
pub open spec fn spec_encode_sender(m: SenderModel) -> Seq<char> {
    lit_keys_open() + spec_encode_keys(m.keys) + lit_sets_mid() + spec_encode_sets(m.sets)
        + lit_record_close()
}

/// Escaping one more character appends that character's escape.
proof fn lemma_escape_push(s: Seq<char>, c: char)
    ensures
        spec_escape(s.push(c)) == spec_escape(s) + spec_escape_char(c),
    decreases s.len(),
{
    if s.len() == 0 {
        assert(s.push(c).drop_first() =~= Seq::<char>::empty());
        assert(s.push(c)[0] == c);
        assert(spec_escape(Seq::<char>::empty()) == Seq::<char>::empty());
        assert(spec_escape(s.push(c)) =~= spec_escape_char(c));
        assert(spec_escape(s) + spec_escape_char(c) =~= spec_escape_char(c));
    } else {
        assert(s.push(c).drop_first() =~= s.drop_first().push(c));
        lemma_escape_push(s.drop_first(), c);
        assert(spec_escape(s.push(c)) =~= spec_escape(s) + spec_escape_char(c));
    }
}

/// Relies on alloc's String::push: appends exactly the one character.
#[verifier::external_body]
fn push_char(s: &mut String, c: char)
    ensures
        final(s)@ == old(s)@.push(c),
{
    s.push(c);
}

/// Builds the string holding exactly these characters.
fn chars_to_string(chars: &Vec<char>) -> (s: String)
    ensures
        s@ == chars@,
{
    let mut s = String::new();
    let mut i: usize = 0;
    while i < chars.len()
        invariant
            i <= chars.len(),
            s@ == chars@.subrange(0, i as int),
        decreases chars.len() - i,
    {
        push_char(&mut s, chars[i]);
        assert(s@ =~= chars@.subrange(0, i + 1));
        i = i + 1;
    }
    assert(s@ =~= chars@);
    s
}

/// The characters of a string, in order.
fn str_chars(s: &str) -> (chars: Vec<char>)
    ensures
        chars@ == s@,
{
    let mut chars: Vec<char> = Vec::new();
    let n = s.unicode_len();
    let mut i: usize = 0;
    while i < n
        invariant
            i <= n,
            n == s@.len(),
            chars@ == s@.subrange(0, i as int),
        decreases n - i,
    {
        chars.push(s.get_char(i));
        assert(chars@ =~= s@.subrange(0, i + 1));
        i = i + 1;
    }
    assert(chars@ =~= s@);
    chars
}

/// Appends a quoted, escaped string.
fn push_encoded_string(out: &mut Vec<char>, s: &str)
    ensures
        final(out)@ == old(out)@ + spec_encode_string(s@),
{
    let chars = str_chars(s);
    out.push('"');
    let mut i: usize = 0;
    while i < chars.len()
        invariant
            i <= chars.len(),
            chars@ == s@,
            out@ == old(out)@ + seq!['"'] + spec_escape(s@.subrange(0, i as int)),
        decreases chars.len() - i,
    {
        let c = chars[i];
        if c == '"' || c == '\\' {
            out.push('\\');
            out.push(c);
        } else {
            out.push(c);
        }
        proof {
            lemma_escape_push(s@.subrange(0, i as int), s@[i as int]);
            assert(s@.subrange(0, i as int).push(s@[i as int]) =~= s@.subrange(0, i + 1));
            assert(out@ =~= old(out)@ + seq!['"'] + spec_escape(s@.subrange(0, i + 1)));
        }
        i = i + 1;
    }
    out.push('"');
    proof {
        assert(s@.subrange(0, s@.len() as int) =~= s@);
        assert(out@ =~= old(out)@ + spec_encode_string(s@));
    }
}

/// Appends a number in decimal.
fn push_u64(out: &mut Vec<char>, n: u64)
    ensures
        final(out)@ == old(out)@ + spec_digits(n),
{
    let mut reversed: Vec<char> = Vec::new();
    let mut cur = n;
    loop
        invariant
            spec_digits(n) == spec_digits(cur) + reversed@.reverse(),
        ensures
            spec_digits(n) == seq![spec_digit_char(cur)] + reversed@.reverse(),
            cur < 10,
        decreases cur,
    {
        let digit = cur % 10;
        let c = match digit {
            0 => '0',
            1 => '1',
            2 => '2',
            3 => '3',
            4 => '4',
            5 => '5',
            6 => '6',
            7 => '7',
            8 => '8',
            _ => '9',
        };
        assert(c == spec_digit_char(digit));
        if cur < 10 {
            proof {
                assert(spec_digits(cur) == seq![spec_digit_char(cur)]);
            }
            break ;
        }
        reversed.push(c);
        proof {
            assert(reversed@.reverse() =~= seq![c] + reversed@.drop_last().reverse());
            assert(spec_digits(cur) == spec_digits(cur / 10).push(spec_digit_char(cur % 10)));
            assert(spec_digits(cur / 10) + reversed@.reverse() =~= spec_digits(cur)
                + reversed@.drop_last().reverse());
        }
        cur = cur / 10;
    }
    let ghost mid = out@;
    out.push(match cur {
        0 => '0',
        1 => '1',
        2 => '2',
        3 => '3',
        4 => '4',
        5 => '5',
        6 => '6',
        7 => '7',
        8 => '8',
        _ => '9',
    });
    assert(out@ == mid.push(spec_digit_char(cur)));
    let mut k: usize = reversed.len();
    while k > 0
        invariant
            k <= reversed@.len(),
            out@ == mid.push(spec_digit_char(cur)) + reversed@.reverse().subrange(
                0,
                reversed@.len() - k,
            ),
        decreases k,
    {
        k = k - 1;
        out.push(reversed[k]);
        proof {
            assert(reversed@.reverse()[reversed@.len() - 1 - k] == reversed@[k as int]);
            assert(out@ =~= mid.push(spec_digit_char(cur)) + reversed@.reverse().subrange(
                0,
                reversed@.len() - k,
            ));
        }
    }
    proof {
        assert(reversed@.reverse().subrange(0, reversed@.len() as int) =~= reversed@.reverse());
        assert(out@ =~= mid + spec_digits(n));
    }
}

/// Encoding one more key appends a comma (after a first key) and its encoding.
proof fn lemma_encode_keys_push(keys: Seq<KeyModel>, k: KeyModel)
    ensures
        spec_encode_keys(keys.push(k)) == if keys.len() == 0 {
            spec_encode_key(k)
        } else {
            spec_encode_keys(keys) + seq![','] + spec_encode_key(k)
        },
    decreases keys.len(),
{
    if keys.len() == 0 {
        assert(keys.push(k)[0] == k);
        assert(spec_encode_keys(keys.push(k)) == spec_encode_key(k));
    } else {
        assert(keys.push(k).drop_first() =~= keys.drop_first().push(k));
        lemma_encode_keys_push(keys.drop_first(), k);
        if keys.len() == 1 {
            assert(spec_encode_keys(keys.push(k)) =~= spec_encode_keys(keys) + seq![',']
                + spec_encode_key(k));
        } else {
            assert(spec_encode_keys(keys.push(k)) =~= spec_encode_keys(keys) + seq![',']
                + spec_encode_key(k));
        }
    }
}

/// Encoding one more index appends a comma (after a first index) and its
/// digits.
proof fn lemma_encode_indices_push(set: Seq<u64>, x: u64)
    ensures
        spec_encode_indices(set.push(x)) == if set.len() == 0 {
            spec_digits(x)
        } else {
            spec_encode_indices(set) + seq![','] + spec_digits(x)
        },
    decreases set.len(),
{
    if set.len() == 0 {
        assert(set.push(x)[0] == x);
        assert(spec_encode_indices(set.push(x)) == spec_digits(x));
    } else {
        assert(set.push(x).drop_first() =~= set.drop_first().push(x));
        lemma_encode_indices_push(set.drop_first(), x);
        assert(spec_encode_indices(set.push(x)) =~= spec_encode_indices(set) + seq![',']
            + spec_digits(x));
    }
}

/// Encoding one more combination appends a comma (after a first one) and its
/// encoding.
proof fn lemma_encode_sets_push(sets: Seq<Seq<u64>>, s: Seq<u64>)
    ensures
        spec_encode_sets(sets.push(s)) == if sets.len() == 0 {
            spec_encode_set(s)
        } else {
            spec_encode_sets(sets) + seq![','] + spec_encode_set(s)
        },
    decreases sets.len(),
{
    if sets.len() == 0 {
        assert(sets.push(s)[0] == s);
        assert(spec_encode_sets(sets.push(s)) == spec_encode_set(s));
    } else {
        assert(sets.push(s).drop_first() =~= sets.drop_first().push(s));
        lemma_encode_sets_push(sets.drop_first(), s);
        assert(spec_encode_sets(sets.push(s)) =~= spec_encode_sets(sets) + seq![',']
            + spec_encode_set(s));
    }
}

/// Appends one encoded key reference.
fn push_encoded_key(out: &mut Vec<char>, key: &Key)
    ensures
        final(out)@ == old(out)@ + spec_encode_key(spec_key_model(*key)),
{
    out.push('{');
    out.push('"');
    out.push('h');
    out.push('o');
    out.push('s');
    out.push('t');
    out.push('"');
    out.push(':');
    assert(out@ =~= old(out)@ + lit_host_open());
    push_encoded_string(out, key.host.as_str());
    out.push(',');
    out.push('"');
    out.push('p');
    out.push('k');
    out.push('"');
    out.push(':');
    assert(out@ =~= old(out)@ + lit_host_open() + spec_encode_string(key.host@) + lit_pk_mid());
    push_encoded_string(out, key.pk.as_str());
    out.push(',');
    out.push('"');
    out.push('i');
    out.push('d');
    out.push('"');
    out.push(':');
    assert(out@ =~= old(out)@ + lit_host_open() + spec_encode_string(key.host@) + lit_pk_mid()
        + spec_encode_string(key.pk@) + lit_id_mid());
    push_encoded_string(out, key.id.as_str());
    out.push('}');
    assert(out@ =~= old(out)@ + spec_encode_key(spec_key_model(*key)));
}

/// Appends the comma-separated encoded key references.
fn push_encoded_keys(out: &mut Vec<char>, keys: &Vec<Key>)
    ensures
        final(out)@ == old(out)@ + spec_encode_keys(
            keys@.map_values(|k: Key| spec_key_model(k)),
        ),
{
    let ghost km = keys@.map_values(|k: Key| spec_key_model(k));
    proof {
        assert(km.subrange(0, 0) =~= Seq::<KeyModel>::empty());
    }
    let mut i: usize = 0;
    while i < keys.len()
        invariant
            i <= keys.len(),
            km == keys@.map_values(|k: Key| spec_key_model(k)),
            km.len() == keys@.len(),
            out@ == old(out)@ + spec_encode_keys(km.subrange(0, i as int)),
        decreases keys.len() - i,
    {
        if i > 0 {
            out.push(',');
        }
        push_encoded_key(out, &keys[i]);
        proof {
            lemma_encode_keys_push(km.subrange(0, i as int), km[i as int]);
            assert(km.subrange(0, i as int).push(km[i as int]) =~= km.subrange(0, i + 1));
            assert(out@ =~= old(out)@ + spec_encode_keys(km.subrange(0, i + 1)));
        }
        i = i + 1;
    }
    assert(km.subrange(0, km.len() as int) =~= km);
}

/// Appends one encoded combination.
fn push_encoded_set(out: &mut Vec<char>, set: &Vec<u64>)
    ensures
        final(out)@ == old(out)@ + spec_encode_set(set@),
{
    out.push('[');
    proof {
        assert(set@.subrange(0, 0) =~= Seq::<u64>::empty());
    }
    let ghost base = out@;
    let mut j: usize = 0;
    while j < set.len()
        invariant
            j <= set.len(),
            out@ == base + spec_encode_indices(set@.subrange(0, j as int)),
        decreases set.len() - j,
    {
        if j > 0 {
            out.push(',');
        }
        push_u64(out, set[j]);
        proof {
            lemma_encode_indices_push(set@.subrange(0, j as int), set@[j as int]);
            assert(set@.subrange(0, j as int).push(set@[j as int]) =~= set@.subrange(0, j + 1));
            assert(out@ =~= base + spec_encode_indices(set@.subrange(0, j + 1)));
        }
        j = j + 1;
    }
    out.push(']');
    proof {
        assert(set@.subrange(0, set@.len() as int) =~= set@);
        assert(out@ =~= old(out)@ + spec_encode_set(set@));
    }
}

/// Appends the comma-separated encoded combinations.
fn push_encoded_sets(out: &mut Vec<char>, sets: &Vec<Vec<u64>>)
    ensures
        final(out)@ == old(out)@ + spec_encode_sets(sets.deep_view()),
{
    proof {
        crate::vault::lemma_deep_view_elems(*sets);
        assert(sets.deep_view().subrange(0, 0) =~= Seq::<Seq<u64>>::empty());
    }
    let ghost sm = sets.deep_view();
    let mut i: usize = 0;
    while i < sets.len()
        invariant
            i <= sets.len(),
            sm == sets.deep_view(),
            sm.len() == sets@.len(),
            forall|m: int| 0 <= m < sets@.len() ==> sm[m] == #[trigger] sets@[m]@,
            out@ == old(out)@ + spec_encode_sets(sm.subrange(0, i as int)),
        decreases sets.len() - i,
    {
        if i > 0 {
            out.push(',');
        }
        push_encoded_set(out, &sets[i]);
        proof {
            lemma_encode_sets_push(sm.subrange(0, i as int), sm[i as int]);
            assert(sm.subrange(0, i as int).push(sm[i as int]) =~= sm.subrange(0, i + 1));
            assert(out@ =~= old(out)@ + spec_encode_sets(sm.subrange(0, i + 1)));
        }
        i = i + 1;
    }
    assert(sm.subrange(0, sm.len() as int) =~= sm);
}

/// The canonical text of a sender record's protocol content: exactly what a
/// receiver needs to reference the same servers under the same threshold
/// combinations.
pub fn encode_sender(sender: &Sender) -> (text: String)
    ensures
        text@ == spec_encode_sender(spec_sender_model(*sender)),
{
    let mut out: Vec<char> = Vec::new();
    out.push('{');
    out.push('"');
    out.push('k');
    out.push('e');
    out.push('y');
    out.push('s');
    out.push('"');
    out.push(':');
    out.push('[');
    assert(out@ =~= lit_keys_open());
    push_encoded_keys(&mut out, &sender.keys);
    out.push(']');
    out.push(',');
    out.push('"');
    out.push('s');
    out.push('e');
    out.push('t');
    out.push('s');
    out.push('"');
    out.push(':');
    out.push('[');
    let ghost m = spec_sender_model(*sender);
    assert(out@ =~= lit_keys_open() + spec_encode_keys(m.keys) + lit_sets_mid());
    push_encoded_sets(&mut out, &sender.sets);
    out.push(']');
    out.push('}');
    assert(out@ =~= spec_encode_sender(m));
    chars_to_string(&out)
}

/// Consumes `lit` from the front of `text`, or fails.
pub open spec fn spec_expect(text: Seq<char>, lit: Seq<char>) -> Option<Seq<char>> {
    if text.len() >= lit.len() && text.subrange(0, lit.len() as int) == lit {
        Some(text.subrange(lit.len() as int, text.len() as int))
    } else {
        None
    }
}

/// Parses a quoted string's content after its opening quote: characters up to
/// the closing quote, undoing escapes; the quote is consumed.
pub open spec fn spec_parse_string_body(text: Seq<char>) -> Option<(Seq<char>, Seq<char>)>
    decreases text.len(),
{
    if text.len() == 0 {
        None
    } else if text[0] == '"' {
        Some((Seq::empty(), text.drop_first()))
    } else if text[0] == '\\' {
        if text.len() >= 2 && (text[1] == '"' || text[1] == '\\') {
            match spec_parse_string_body(text.drop_first().drop_first()) {
                Some(r) => Some((seq![text[1]] + r.0, r.1)),
                None => None,
            }
        } else {
            None
        }
    } else {
        match spec_parse_string_body(text.drop_first()) {
            Some(r) => Some((seq![text[0]] + r.0, r.1)),
            None => None,
        }
    }
}

/// Parses a quoted string.
pub open spec fn spec_parse_string(text: Seq<char>) -> Option<(Seq<char>, Seq<char>)> {
    if text.len() >= 1 && text[0] == '"' {
        spec_parse_string_body(text.drop_first())
    } else {
        None
    }
}

/// The value of a decimal digit character.
pub open spec fn spec_digit_val(c: char) -> Option<u64> {
    if c == '0' {
        Some(0u64)
    } else if c == '1' {
        Some(1u64)
    } else if c == '2' {
        Some(2u64)
    } else if c == '3' {
        Some(3u64)
    } else if c == '4' {
        Some(4u64)
    } else if c == '5' {
        Some(5u64)
    } else if c == '6' {
        Some(6u64)
    } else if c == '7' {
        Some(7u64)
    } else if c == '8' {
        Some(8u64)
    } else if c == '9' {
        Some(9u64)
    } else {
        None
    }
}

/// Extends `acc` with every leading digit; stops at the first non-digit, fails
/// on numbers a `u64` cannot hold.
pub open spec fn spec_parse_u64_from(text: Seq<char>, acc: u64) -> Option<(u64, Seq<char>)>
    decreases text.len(),
{
    if text.len() == 0 {
        Some((acc, text))
    } else {
        match spec_digit_val(text[0]) {
            Some(d) => if acc <= (u64::MAX - d) / 10 {
                spec_parse_u64_from(text.drop_first(), (10 * acc + d) as u64)
            } else {
                None
            },
            None => Some((acc, text)),
        }
    }
}

/// Parses a decimal number: at least one digit, no wider than a `u64`.
pub open spec fn spec_parse_u64(text: Seq<char>) -> Option<(u64, Seq<char>)> {
    if text.len() >= 1 && spec_digit_val(text[0]) is Some {
        spec_parse_u64_from(text, 0)
    } else {
        None
    }
}

/// Parses one key reference.
pub open spec fn spec_parse_key(text: Seq<char>) -> Option<(KeyModel, Seq<char>)> {
    match spec_expect(text, lit_host_open()) {
        Some(t1) => match spec_parse_string(t1) {
            Some((host, t2)) => match spec_expect(t2, lit_pk_mid()) {
                Some(t3) => match spec_parse_string(t3) {
                    Some((pk, t4)) => match spec_expect(t4, lit_id_mid()) {
                        Some(t5) => match spec_parse_string(t5) {
                            Some((id, t6)) => match spec_expect(t6, seq!['}']) {
                                Some(t7) => Some((KeyModel { host, pk, id }, t7)),
                                None => None,
                            },
                            None => None,
                        },
                        None => None,
                    },
                    None => None,
                },
                None => None,
            },
            None => None,
        },
        None => None,
    }
}

/// Parsing a string body consumes at least its closing quote.
proof fn lemma_parse_string_body_consumes(text: Seq<char>)
    ensures
        spec_parse_string_body(text) matches Some(r) ==> r.1.len() < text.len(),
    decreases text.len(),
{
    if text.len() > 0 && text[0] != '"' {
        if text[0] == '\\' {
            if text.len() >= 2 && (text[1] == '"' || text[1] == '\\') {
                lemma_parse_string_body_consumes(text.drop_first().drop_first());
            }
        } else {
            lemma_parse_string_body_consumes(text.drop_first());
        }
    }
}

/// Parsing a string consumes at least its two quotes.
proof fn lemma_parse_string_consumes(text: Seq<char>)
    ensures
        spec_parse_string(text) matches Some(r) ==> r.1.len() < text.len(),
{
    if text.len() >= 1 && text[0] == '"' {
        lemma_parse_string_body_consumes(text.drop_first());
    }
}

/// Extending a number never grows the remainder.
proof fn lemma_parse_u64_from_consumes(text: Seq<char>, acc: u64)
    ensures
        spec_parse_u64_from(text, acc) matches Some(r) ==> r.1.len() <= text.len(),
    decreases text.len(),
{
    if text.len() > 0 {
        if spec_digit_val(text[0]) is Some {
            if acc <= (u64::MAX - spec_digit_val(text[0]).unwrap()) / 10 {
                lemma_parse_u64_from_consumes(
                    text.drop_first(),
                    (10 * acc + spec_digit_val(text[0]).unwrap()) as u64,
                );
            }
        }
    }
}

/// Parsing a number consumes at least one digit.
proof fn lemma_parse_u64_consumes(text: Seq<char>)
    ensures
        spec_parse_u64(text) matches Some(r) ==> r.1.len() < text.len(),
{
    if text.len() >= 1 && spec_digit_val(text[0]) is Some {
        let d = spec_digit_val(text[0]).unwrap();
        if 0 <= (u64::MAX - d) / 10 {
            lemma_parse_u64_from_consumes(text.drop_first(), d);
        }
    }
}

/// Parsing a key consumes at least its braces.
proof fn lemma_parse_key_consumes(text: Seq<char>)
    ensures
        spec_parse_key(text) matches Some(r) ==> r.1.len() < text.len(),
{
    match spec_expect(text, lit_host_open()) {
        Some(t1) => {
            lemma_parse_string_consumes(t1);
            match spec_parse_string(t1) {
                Some((host, t2)) => {
                    match spec_expect(t2, lit_pk_mid()) {
                        Some(t3) => {
                            lemma_parse_string_consumes(t3);
                            match spec_parse_string(t3) {
                                Some((pk, t4)) => {
                                    match spec_expect(t4, lit_id_mid()) {
                                        Some(t5) => {
                                            lemma_parse_string_consumes(t5);
                                        },
                                        None => {},
                                    }
                                },
                                None => {},
                            }
                        },
                        None => {},
                    }
                },
                None => {},
            }
        },
        None => {},
    }
}

/// Parses the key references between the brackets: empty before a closing
/// bracket, else keys separated by commas, stopping before the bracket.
pub open spec fn spec_parse_keys(text: Seq<char>) -> Option<(Seq<KeyModel>, Seq<char>)>
    decreases text.len(),
    via spec_parse_keys_decreases
{
    if text.len() == 0 {
        None
    } else if text[0] == ']' {
        Some((Seq::empty(), text))
    } else {
        match spec_parse_key(text) {
            Some((k, rest)) => if rest.len() > 0 && rest[0] == ',' {
                match spec_parse_keys(rest.drop_first()) {
                    Some((ks, r2)) => if ks.len() > 0 {
                        Some((seq![k] + ks, r2))
                    } else {
                        None
                    },
                    None => None,
                }
            } else if rest.len() > 0 && rest[0] == ']' {
                Some((seq![k], rest))
            } else {
                None
            },
            None => None,
        }
    }
}

#[via_fn]
proof fn spec_parse_keys_decreases(text: Seq<char>) {
    lemma_parse_key_consumes(text);
}

/// Parses the digits between a combination's brackets, stopping before the
/// closing bracket.
pub open spec fn spec_parse_indices(text: Seq<char>) -> Option<(Seq<u64>, Seq<char>)>
    decreases text.len(),
    via spec_parse_indices_decreases
{
    if text.len() == 0 {
        None
    } else if text[0] == ']' {
        Some((Seq::empty(), text))
    } else {
        match spec_parse_u64(text) {
            Some((x, rest)) => if rest.len() > 0 && rest[0] == ',' {
                match spec_parse_indices(rest.drop_first()) {
                    Some((xs, r2)) => if xs.len() > 0 {
                        Some((seq![x] + xs, r2))
                    } else {
                        None
                    },
                    None => None,
                }
            } else if rest.len() > 0 && rest[0] == ']' {
                Some((seq![x], rest))
            } else {
                None
            },
            None => None,
        }
    }
}

#[via_fn]
proof fn spec_parse_indices_decreases(text: Seq<char>) {
    lemma_parse_u64_consumes(text);
}

/// Parses one combination: brackets around its indices.
pub open spec fn spec_parse_set(text: Seq<char>) -> Option<(Seq<u64>, Seq<char>)> {
    match spec_expect(text, seq!['[']) {
        Some(t1) => match spec_parse_indices(t1) {
            Some((xs, t2)) => match spec_expect(t2, seq![']']) {
                Some(t3) => Some((xs, t3)),
                None => None,
            },
            None => None,
        },
        None => None,
    }
}

/// Parsing a combination consumes at least its brackets.
proof fn lemma_parse_set_consumes(text: Seq<char>)
    ensures
        spec_parse_set(text) matches Some(r) ==> r.1.len() < text.len(),
{
    match spec_expect(text, seq!['[']) {
        Some(t1) => {
            lemma_parse_indices_consumes(t1);
        },
        None => {},
    }
}

/// Parsing index lists never grows the remainder.
proof fn lemma_parse_indices_consumes(text: Seq<char>)
    ensures
        spec_parse_indices(text) matches Some(r) ==> r.1.len() <= text.len(),
    decreases text.len(),
{
    if text.len() > 0 && text[0] != ']' {
        lemma_parse_u64_consumes(text);
        match spec_parse_u64(text) {
            Some((x, rest)) => {
                if rest.len() > 0 && rest[0] == ',' {
                    lemma_parse_indices_consumes(rest.drop_first());
                }
            },
            None => {},
        }
    }
}

/// Parses the combinations between the brackets: empty before a closing
/// bracket, else combinations separated by commas, stopping before the
/// bracket.
pub open spec fn spec_parse_sets(text: Seq<char>) -> Option<(Seq<Seq<u64>>, Seq<char>)>
    decreases text.len(),
    via spec_parse_sets_decreases
{
    if text.len() == 0 {
        None
    } else if text[0] == ']' {
        Some((Seq::empty(), text))
    } else {
        match spec_parse_set(text) {
            Some((s, rest)) => if rest.len() > 0 && rest[0] == ',' {
                match spec_parse_sets(rest.drop_first()) {
                    Some((ss, r2)) => if ss.len() > 0 {
                        Some((seq![s] + ss, r2))
                    } else {
                        None
                    },
                    None => None,
                }
            } else if rest.len() > 0 && rest[0] == ']' {
                Some((seq![s], rest))
            } else {
                None
            },
            None => None,
        }
    }
}

#[via_fn]
proof fn spec_parse_sets_decreases(text: Seq<char>) {
    lemma_parse_set_consumes(text);
}

/// A literal at the front of the text is consumed exactly.
proof fn lemma_rt_expect(lit: Seq<char>, rest: Seq<char>)
    ensures
        spec_expect(lit + rest, lit) == Some(rest),
{
    let text = lit + rest;
    assert(text.subrange(0, lit.len() as int) =~= lit);
    assert(text.subrange(lit.len() as int, text.len() as int) =~= rest);
}

/// An escaped string's content parses back to exactly that content.
proof fn lemma_rt_string_body(v: Seq<char>, rest: Seq<char>)
    ensures
        spec_parse_string_body(spec_escape(v) + seq!['"'] + rest) == Some((v, rest)),
    decreases v.len(),
{
    let text = spec_escape(v) + seq!['"'] + rest;
    if v.len() == 0 {
        assert(spec_escape(v) == Seq::<char>::empty());
        assert(text[0] == '"');
        assert(text.drop_first() =~= rest);
    } else {
        let c = v[0];
        let tail = v.drop_first();
        assert(spec_escape(v) == spec_escape_char(c) + spec_escape(tail));
        lemma_rt_string_body(tail, rest);
        if c == '"' || c == '\\' {
            assert(text[0] == '\\');
            assert(text[1] == c);
            assert(text.drop_first().drop_first() =~= spec_escape(tail) + seq!['"'] + rest);
            assert(seq![c] + tail =~= v);
        } else {
            assert(text[0] == c);
            assert(text.drop_first() =~= spec_escape(tail) + seq!['"'] + rest);
            assert(seq![c] + tail =~= v);
        }
    }
}

/// An encoded string parses back to exactly its content.
proof fn lemma_rt_string(v: Seq<char>, rest: Seq<char>)
    ensures
        spec_parse_string(spec_encode_string(v) + rest) == Some((v, rest)),
{
    let text = spec_encode_string(v) + rest;
    assert(text[0] == '"');
    assert(text.drop_first() =~= spec_escape(v) + seq!['"'] + rest);
    lemma_rt_string_body(v, rest);
}

/// The scale a number's digits occupy: ten to their count.
pub open spec fn pow10_of(n: u64) -> int
    decreases n,
{
    if n < 10 {
        10
    } else {
        10 * pow10_of((n / 10) as u64)
    }
}

/// The digit characters parse back as digits.
proof fn lemma_digit_char_val(d: u64)
    requires
        d < 10,
    ensures
        spec_digit_val(spec_digit_char(d)) == Some(d),
{
}

/// A number's first digit character is a digit and is not a bracket.
proof fn lemma_digits_first(n: u64)
    ensures
        spec_digits(n).len() >= 1,
        spec_digit_val(spec_digits(n)[0]) is Some,
        spec_digits(n)[0] != ']',
        spec_digits(n)[0] != '{',
    decreases n,
{
    if n < 10 {
        lemma_digit_char_val(n);
    } else {
        lemma_digits_first((n / 10) as u64);
        assert(spec_digits(n)[0] == spec_digits((n / 10) as u64)[0]);
    }
}

/// Reading a number's digits multiplies the accumulator by their scale and
/// adds the number.
proof fn lemma_rt_u64_from(n: u64, rest: Seq<char>, acc: u64)
    requires
        acc * pow10_of(n) + n <= u64::MAX,
    ensures
        spec_parse_u64_from(spec_digits(n) + rest, acc) == spec_parse_u64_from(
            rest,
            (acc * pow10_of(n) + n) as u64,
        ),
    decreases n,
{
    let text = spec_digits(n) + rest;
    if n < 10 {
        lemma_digit_char_val(n);
        assert(text[0] == spec_digit_char(n));
        assert(acc * 10 + n <= u64::MAX);
        assert(acc <= (u64::MAX - n) / 10) by (nonlinear_arith)
            requires
                acc * 10 + n <= u64::MAX,
                0 <= n < 10,
        ;
        assert(text.drop_first() =~= rest);
        assert(pow10_of(n) == 10);
        assert(10 * acc + n == acc * pow10_of(n) + n) by (nonlinear_arith)
            requires
                pow10_of(n) == 10,
        ;
    } else {
        let d = (n % 10) as u64;
        let m = (n / 10) as u64;
        let p = pow10_of(m);
        assert(pow10_of(n) == 10 * p);
        assert(p >= 10) by {
            lemma_pow10_lower(m);
        }
        assert(n == 10 * m + d) by {
            vstd::arithmetic::div_mod::lemma_fundamental_div_mod(n as int, 10);
        }
        assert(acc * (10 * p) + n == (acc * p + m) * 10 + d) by (nonlinear_arith)
            requires
                n == 10 * m + d,
        ;
        assert(acc * p + m <= u64::MAX) by (nonlinear_arith)
            requires
                (acc * p + m) * 10 + d <= u64::MAX,
                acc * p + m >= 0,
        ;
        let mid = (acc * p + m) as u64;
        assert(spec_digits(n) =~= spec_digits(m) + seq![spec_digit_char(d)]);
        assert(text =~= spec_digits(m) + (seq![spec_digit_char(d)] + rest));
        lemma_rt_u64_from(m, seq![spec_digit_char(d)] + rest, acc);
        let step = seq![spec_digit_char(d)] + rest;
        lemma_digit_char_val(d);
        assert(step[0] == spec_digit_char(d));
        assert(mid * 10 + d <= u64::MAX);
        assert(mid <= (u64::MAX - d) / 10) by (nonlinear_arith)
            requires
                mid * 10 + d <= u64::MAX,
                0 <= d < 10,
                mid >= 0,
        ;
        assert(step.drop_first() =~= rest);
        assert(10 * mid + d == acc * pow10_of(n) + n) by (nonlinear_arith)
            requires
                acc * (10 * p) + n == (acc * p + m) * 10 + d,
                mid == acc * p + m,
                pow10_of(n) == 10 * p,
        ;
    }
}

/// The scale is at least ten.
proof fn lemma_pow10_lower(n: u64)
    ensures
        pow10_of(n) >= 10,
    decreases n,
{
    if n >= 10 {
        lemma_pow10_lower((n / 10) as u64);
    }
}

/// A number's digits, followed by anything but a digit, parse back to exactly
/// that number.
proof fn lemma_rt_u64(n: u64, rest: Seq<char>)
    requires
        rest.len() == 0 || spec_digit_val(rest[0]) is None,
    ensures
        spec_parse_u64(spec_digits(n) + rest) == Some((n, rest)),
{
    let text = spec_digits(n) + rest;
    lemma_digits_first(n);
    assert(text[0] == spec_digits(n)[0]);
    lemma_pow10_lower(n);
    assert(0 * pow10_of(n) + n <= u64::MAX) by (nonlinear_arith)
        requires
            n <= u64::MAX,
            pow10_of(n) >= 10,
    ;
    lemma_rt_u64_from(n, rest, 0);
    assert((0 * pow10_of(n) + n) as u64 == n) by (nonlinear_arith);
    assert(spec_parse_u64_from(rest, n) == Some((n, rest)));
}

/// An encoded key parses back to exactly its content.
proof fn lemma_rt_key(k: KeyModel, rest: Seq<char>)
    ensures
        spec_parse_key(spec_encode_key(k) + rest) == Some((k, rest)),
{
    let text = spec_encode_key(k) + rest;
    let t1 = spec_encode_string(k.host) + (lit_pk_mid() + (spec_encode_string(k.pk) + (lit_id_mid()
        + (spec_encode_string(k.id) + (seq!['}'] + rest)))));
    assert(text =~= lit_host_open() + t1);
    lemma_rt_expect(lit_host_open(), t1);
    lemma_rt_string(k.host, lit_pk_mid() + (spec_encode_string(k.pk) + (lit_id_mid() + (
    spec_encode_string(k.id) + (seq!['}'] + rest)))));
    let t3 = spec_encode_string(k.pk) + (lit_id_mid() + (spec_encode_string(k.id) + (seq!['}']
        + rest)));
    lemma_rt_expect(lit_pk_mid(), t3);
    lemma_rt_string(k.pk, lit_id_mid() + (spec_encode_string(k.id) + (seq!['}'] + rest)));
    let t5 = spec_encode_string(k.id) + (seq!['}'] + rest);
    lemma_rt_expect(lit_id_mid(), t5);
    lemma_rt_string(k.id, seq!['}'] + rest);
    lemma_rt_expect(seq!['}'], rest);
    assert(spec_parse_key(text) == Some((KeyModel { host: k.host, pk: k.pk, id: k.id }, rest)));
}

/// An encoded key list, followed by a closing bracket, parses back to exactly
/// its keys, stopping at the bracket.
#[verifier::rlimit(50)]
proof fn lemma_rt_keys(ks: Seq<KeyModel>, rest: Seq<char>)
    requires
        rest.len() > 0,
        rest[0] == ']',
    ensures
        spec_parse_keys(spec_encode_keys(ks) + rest) == Some((ks, rest)),
    decreases ks.len(),
{
    let text = spec_encode_keys(ks) + rest;
    if ks.len() == 0 {
        assert(spec_encode_keys(ks) == Seq::<char>::empty());
        assert(text =~= rest);
    } else if ks.len() == 1 {
        assert(text =~= spec_encode_key(ks[0]) + rest);
        assert(text[0] == '{');
        lemma_rt_key(ks[0], rest);
        assert(seq![ks[0]] =~= ks);
    } else {
        let tail = ks.drop_first();
        let inner = seq![','] + (spec_encode_keys(tail) + rest);
        assert(text =~= spec_encode_key(ks[0]) + inner);
        assert(text[0] == '{');
        lemma_rt_key(ks[0], inner);
        assert(inner[0] == ',');
        assert(inner.drop_first() =~= spec_encode_keys(tail) + rest);
        lemma_rt_keys(tail, rest);
        assert(tail.len() > 0);
        assert(seq![ks[0]] + tail =~= ks);
    }
}

/// An encoded index list, followed by a closing bracket, parses back to
/// exactly its indices, stopping at the bracket.
proof fn lemma_rt_indices(xs: Seq<u64>, rest: Seq<char>)
    requires
        rest.len() > 0,
        rest[0] == ']',
    ensures
        spec_parse_indices(spec_encode_indices(xs) + rest) == Some((xs, rest)),
    decreases xs.len(),
{
    let text = spec_encode_indices(xs) + rest;
    if xs.len() == 0 {
        assert(text =~= rest);
    } else if xs.len() == 1 {
        assert(text =~= spec_digits(xs[0]) + rest);
        lemma_digits_first(xs[0]);
        assert(text[0] == spec_digits(xs[0])[0]);
        lemma_rt_u64(xs[0], rest);
        assert(seq![xs[0]] =~= xs);
    } else {
        let tail = xs.drop_first();
        let inner = seq![','] + (spec_encode_indices(tail) + rest);
        assert(text =~= spec_digits(xs[0]) + inner);
        lemma_digits_first(xs[0]);
        assert(text[0] == spec_digits(xs[0])[0]);
        lemma_rt_u64(xs[0], inner);
        assert(inner[0] == ',');
        assert(inner.drop_first() =~= spec_encode_indices(tail) + rest);
        lemma_rt_indices(tail, rest);
        assert(tail.len() > 0);
        assert(seq![xs[0]] + tail =~= xs);
    }
}

/// An encoded combination parses back to exactly its indices.
proof fn lemma_rt_set(s: Seq<u64>, rest: Seq<char>)
    ensures
        spec_parse_set(spec_encode_set(s) + rest) == Some((s, rest)),
{
    let text = spec_encode_set(s) + rest;
    let t1 = spec_encode_indices(s) + (seq![']'] + rest);
    assert(text =~= seq!['['] + t1);
    lemma_rt_expect(seq!['['], t1);
    lemma_rt_indices(s, seq![']'] + rest);
    lemma_rt_expect(seq![']'], rest);
}

/// An encoded combination list, followed by a closing bracket, parses back to
/// exactly its combinations, stopping at the bracket.
proof fn lemma_rt_sets(ss: Seq<Seq<u64>>, rest: Seq<char>)
    requires
        rest.len() > 0,
        rest[0] == ']',
    ensures
        spec_parse_sets(spec_encode_sets(ss) + rest) == Some((ss, rest)),
    decreases ss.len(),
{
    let text = spec_encode_sets(ss) + rest;
    if ss.len() == 0 {
        assert(text =~= rest);
    } else if ss.len() == 1 {
        assert(text =~= spec_encode_set(ss[0]) + rest);
        assert(text[0] == '[');
        lemma_rt_set(ss[0], rest);
        assert(seq![ss[0]] =~= ss);
    } else {
        let tail = ss.drop_first();
        let inner = seq![','] + (spec_encode_sets(tail) + rest);
        assert(text =~= spec_encode_set(ss[0]) + inner);
        assert(text[0] == '[');
        lemma_rt_set(ss[0], inner);
        assert(inner[0] == ',');
        assert(inner.drop_first() =~= spec_encode_sets(tail) + rest);
        lemma_rt_sets(tail, rest);
        assert(tail.len() > 0);
        assert(seq![ss[0]] + tail =~= ss);
    }
}

/// Law: the canonical text of a record's protocol content parses back to
/// exactly that content — the identical servers, ids and threshold
/// combinations. This is what lets a sender's stripped record text stand as a
/// receiver's reference.
pub proof fn lemma_encode_parse_round_trip(m: SenderModel)
    ensures
        spec_parse_sender(spec_encode_sender(m)) == Some(m),
{
    let text = spec_encode_sender(m);
    let t1 = spec_encode_keys(m.keys) + (lit_sets_mid() + (spec_encode_sets(m.sets)
        + lit_record_close()));
    assert(text =~= lit_keys_open() + t1);
    lemma_rt_expect(lit_keys_open(), t1);
    let keys_rest = lit_sets_mid() + (spec_encode_sets(m.sets) + lit_record_close());
    assert(keys_rest[0] == ']');
    lemma_rt_keys(m.keys, keys_rest);
    let t3 = spec_encode_sets(m.sets) + lit_record_close();
    lemma_rt_expect(lit_sets_mid(), t3);
    assert(lit_record_close()[0] == ']');
    lemma_rt_sets(m.sets, lit_record_close());
    lemma_rt_expect(lit_record_close(), Seq::<char>::empty());
    assert(t3 =~= spec_encode_sets(m.sets) + (lit_record_close() + Seq::<char>::empty()));
    assert(lit_record_close() + Seq::<char>::empty() =~= lit_record_close());
    assert(spec_parse_sender(text) == Some(SenderModel { keys: m.keys, sets: m.sets }));
    assert(SenderModel { keys: m.keys, sets: m.sets } == m);
}

/// Parses the whole canonical record text; nothing may follow it.
pub open spec fn spec_parse_sender(text: Seq<char>) -> Option<SenderModel> {
    match spec_expect(text, lit_keys_open()) {
        Some(t1) => match spec_parse_keys(t1) {
            Some((keys, t2)) => match spec_expect(t2, lit_sets_mid()) {
                Some(t3) => match spec_parse_sets(t3) {
                    Some((sets, t4)) => match spec_expect(t4, lit_record_close()) {
                        Some(t5) => if t5.len() == 0 {
                            Some(SenderModel { keys, sets })
                        } else {
                            None
                        },
                        None => None,
                    },
                    None => None,
                },
                None => None,
            },
            None => None,
        },
        None => None,
    }
}

/// The text from `pos` on.
pub open spec fn suffix_at(text: Seq<char>, pos: int) -> Seq<char> {
    text.subrange(pos, text.len() as int)
}

/// Prefixes an already-read string onto a body parse.
spec fn prepend_body(p: Seq<char>, r: Option<(Seq<char>, Seq<char>)>) -> Option<
    (Seq<char>, Seq<char>),
> {
    match r {
        Some(x) => Some((p + x.0, x.1)),
        None => None,
    }
}

/// The characters of one literal fragment.
fn lit_vec(which: u8) -> (v: Vec<char>)
    requires
        which < 6,
    ensures
        which == 0 ==> v@ == lit_keys_open(),
        which == 1 ==> v@ == lit_sets_mid(),
        which == 2 ==> v@ == lit_record_close(),
        which == 3 ==> v@ == lit_host_open(),
        which == 4 ==> v@ == lit_pk_mid(),
        which == 5 ==> v@ == lit_id_mid(),
{
    let mut v: Vec<char> = Vec::new();
    if which == 0 {
        v.push('{');
        v.push('"');
        v.push('k');
        v.push('e');
        v.push('y');
        v.push('s');
        v.push('"');
        v.push(':');
        v.push('[');
        assert(v@ =~= lit_keys_open());
    } else if which == 1 {
        v.push(']');
        v.push(',');
        v.push('"');
        v.push('s');
        v.push('e');
        v.push('t');
        v.push('s');
        v.push('"');
        v.push(':');
        v.push('[');
        assert(v@ =~= lit_sets_mid());
    } else if which == 2 {
        v.push(']');
        v.push('}');
        assert(v@ =~= lit_record_close());
    } else if which == 3 {
        v.push('{');
        v.push('"');
        v.push('h');
        v.push('o');
        v.push('s');
        v.push('t');
        v.push('"');
        v.push(':');
        assert(v@ =~= lit_host_open());
    } else if which == 4 {
        v.push(',');
        v.push('"');
        v.push('p');
        v.push('k');
        v.push('"');
        v.push(':');
        assert(v@ =~= lit_pk_mid());
    } else {
        v.push(',');
        v.push('"');
        v.push('i');
        v.push('d');
        v.push('"');
        v.push(':');
        assert(v@ =~= lit_id_mid());
    }
    v
}

/// Consumes one literal fragment from the cursor, or fails.
fn expect_lit(text: &Vec<char>, pos: usize, lit: &Vec<char>) -> (r: Option<usize>)
    requires
        pos <= text@.len(),
    ensures
        match r {
            Some(end) => pos <= end <= text@.len() && spec_expect(
                suffix_at(text@, pos as int),
                lit@,
            ) == Some(suffix_at(text@, end as int)),
            None => spec_expect(suffix_at(text@, pos as int), lit@) is None,
        },
{
    let ghost suf = suffix_at(text@, pos as int);
    if text.len() - pos < lit.len() {
        assert(suf.len() < lit@.len());
        return None;
    }
    let mut i: usize = 0;
    while i < lit.len()
        invariant
            i <= lit@.len(),
            pos + lit@.len() <= text@.len(),
            text@.len() <= usize::MAX,
            suf == suffix_at(text@, pos as int),
            suf.len() == text@.len() - pos,
            forall|m: int| 0 <= m < i ==> text@[pos + m] == lit@[m],
        decreases lit@.len() - i,
    {
        if text[pos + i] != lit[i] {
            proof {
                assert(suf[i as int] == text@[pos + i]);
                if suf.subrange(0, lit@.len() as int) == lit@ {
                    assert(suf.subrange(0, lit@.len() as int)[i as int] == lit@[i as int]);
                }
            }
            return None;
        }
        i = i + 1;
    }
    proof {
        assert(suf.subrange(0, lit@.len() as int) =~= lit@);
        assert(suf.subrange(lit@.len() as int, suf.len() as int) =~= suffix_at(
            text@,
            pos + lit@.len(),
        ));
    }
    Some(pos + lit.len())
}

/// Reads one quoted string from the cursor, undoing escapes.
fn parse_string_at(text: &Vec<char>, pos: usize) -> (r: Option<(String, usize)>)
    requires
        pos <= text@.len(),
    ensures
        match r {
            Some(v) => pos < v.1 <= text@.len() && spec_parse_string(suffix_at(text@, pos as int))
                == Some((v.0@, suffix_at(text@, v.1 as int))),
            None => spec_parse_string(suffix_at(text@, pos as int)) is None,
        },
{
    let ghost suf = suffix_at(text@, pos as int);
    if pos >= text.len() || text[pos] != '"' {
        proof {
            if suf.len() >= 1 {
                assert(suf[0] == text@[pos as int]);
            }
        }
        return None;
    }
    assert(suf[0] == '"');
    assert(suf.drop_first() =~= suffix_at(text@, pos + 1));
    let mut cur: usize = pos + 1;
    let mut out: Vec<char> = Vec::new();
    while cur < text.len()
        invariant
            pos + 1 <= cur <= text@.len(),
            suf == suffix_at(text@, pos as int),
            spec_parse_string(suf) == prepend_body(
                out@,
                spec_parse_string_body(suffix_at(text@, cur as int)),
            ),
        decreases text@.len() - cur,
    {
        let ghost cursuf = suffix_at(text@, cur as int);
        assert(cursuf[0] == text@[cur as int]);
        let c = text[cur];
        if c == '"' {
            proof {
                assert(cursuf.drop_first() =~= suffix_at(text@, cur + 1));
                assert(out@ + Seq::<char>::empty() =~= out@);
            }
            let s = chars_to_string(&out);
            return Some((s, cur + 1));
        } else if c == '\\' {
            if cur + 1 < text.len() && (text[cur + 1] == '"' || text[cur + 1] == '\\') {
                let c2 = text[cur + 1];
                proof {
                    assert(cursuf.len() >= 2);
                    assert(cursuf[1] == c2);
                    assert(cursuf.drop_first().drop_first() =~= suffix_at(text@, cur + 2));
                    let inner = spec_parse_string_body(suffix_at(text@, cur + 2));
                    assert(spec_parse_string_body(cursuf) == prepend_body(seq![c2], inner));
                    match inner {
                        Some(x) => {
                            assert(out@ + (seq![c2] + x.0) =~= out@.push(c2) + x.0);
                        },
                        None => {},
                    }
                }
                out.push(c2);
                cur = cur + 2;
            } else {
                proof {
                    if cursuf.len() >= 2 {
                        assert(cursuf[1] == text@[cur + 1]);
                    }
                }
                return None;
            }
        } else {
            proof {
                assert(cursuf.drop_first() =~= suffix_at(text@, cur + 1));
                let inner = spec_parse_string_body(suffix_at(text@, cur + 1));
                assert(spec_parse_string_body(cursuf) == prepend_body(seq![c], inner));
                match inner {
                    Some(x) => {
                        assert(out@ + (seq![c] + x.0) =~= out@.push(c) + x.0);
                    },
                    None => {},
                }
            }
            out.push(c);
            cur = cur + 1;
        }
    }
    assert(suffix_at(text@, cur as int).len() == 0);
    None
}

/// The value of one decimal digit character.
fn digit_val(c: char) -> (r: Option<u64>)
    ensures
        r == spec_digit_val(c),
{
    match c {
        '0' => Some(0),
        '1' => Some(1),
        '2' => Some(2),
        '3' => Some(3),
        '4' => Some(4),
        '5' => Some(5),
        '6' => Some(6),
        '7' => Some(7),
        '8' => Some(8),
        '9' => Some(9),
        _ => None,
    }
}

/// Reads one decimal number from the cursor.
fn parse_u64_at(text: &Vec<char>, pos: usize) -> (r: Option<(u64, usize)>)
    requires
        pos <= text@.len(),
    ensures
        match r {
            Some(v) => pos < v.1 <= text@.len() && spec_parse_u64(suffix_at(text@, pos as int))
                == Some((v.0, suffix_at(text@, v.1 as int))),
            None => spec_parse_u64(suffix_at(text@, pos as int)) is None,
        },
{
    let ghost suf = suffix_at(text@, pos as int);
    if pos >= text.len() {
        return None;
    }
    assert(suf[0] == text@[pos as int]);
    match digit_val(text[pos]) {
        None => {
            return None;
        },
        Some(_) => {},
    }
    let mut cur: usize = pos;
    let mut acc: u64 = 0;
    while cur < text.len()
        invariant
            pos <= cur <= text@.len(),
            pos < text@.len(),
            suf == suffix_at(text@, pos as int),
            suf.len() >= 1 && spec_digit_val(suf[0]) is Some,
            cur == pos ==> spec_digit_val(text@[pos as int]) is Some,
            spec_parse_u64_from(suffix_at(text@, pos as int), 0) == spec_parse_u64_from(
                suffix_at(text@, cur as int),
                acc,
            ),
        decreases text@.len() - cur,
    {
        let ghost cursuf = suffix_at(text@, cur as int);
        assert(cursuf[0] == text@[cur as int]);
        match digit_val(text[cur]) {
            Some(d) => {
                if acc <= (u64::MAX - d) / 10 {
                    proof {
                        assert(acc * 10 + d <= u64::MAX) by (nonlinear_arith)
                            requires
                                acc <= (u64::MAX - d) / 10,
                                0 <= d < 10,
                                acc >= 0,
                        ;
                        assert(cursuf.drop_first() =~= suffix_at(text@, cur + 1));
                    }
                    acc = acc * 10 + d;
                    cur = cur + 1;
                } else {
                    return None;
                }
            },
            None => {
                return Some((acc, cur));
            },
        }
    }
    assert(suffix_at(text@, cur as int).len() == 0);
    Some((acc, cur))
}

/// Reads one key reference from the cursor.
fn parse_key_at(text: &Vec<char>, pos: usize) -> (r: Option<(Key, usize)>)
    requires
        pos <= text@.len(),
    ensures
        match r {
            Some(v) => pos <= v.1 <= text@.len() && spec_parse_key(suffix_at(text@, pos as int))
                == Some((spec_key_model(v.0), suffix_at(text@, v.1 as int))),
            None => spec_parse_key(suffix_at(text@, pos as int)) is None,
        },
{
    let lit_host = lit_vec(3);
    let p1 = match expect_lit(text, pos, &lit_host) {
        Some(p) => p,
        None => {
            return None;
        },
    };
    let (host, p2) = match parse_string_at(text, p1) {
        Some(v) => v,
        None => {
            return None;
        },
    };
    let lit_pk = lit_vec(4);
    let p3 = match expect_lit(text, p2, &lit_pk) {
        Some(p) => p,
        None => {
            return None;
        },
    };
    let (pk, p4) = match parse_string_at(text, p3) {
        Some(v) => v,
        None => {
            return None;
        },
    };
    let lit_id = lit_vec(5);
    let p5 = match expect_lit(text, p4, &lit_id) {
        Some(p) => p,
        None => {
            return None;
        },
    };
    let (id, p6) = match parse_string_at(text, p5) {
        Some(v) => v,
        None => {
            return None;
        },
    };
    let mut brace: Vec<char> = Vec::new();
    brace.push('}');
    assert(brace@ =~= seq!['}']);
    let p7 = match expect_lit(text, p6, &brace) {
        Some(p) => p,
        None => {
            return None;
        },
    };
    Some((Key { host, pk, id }, p7))
}

/// Prefixes already-read keys onto a key-list parse; after a separator the
/// tail may not be empty.
spec fn prepend_keys(p: Seq<KeyModel>, r: Option<(Seq<KeyModel>, Seq<char>)>) -> Option<
    (Seq<KeyModel>, Seq<char>),
> {
    match r {
        Some(x) => if p.len() == 0 || x.0.len() > 0 {
            Some((p + x.0, x.1))
        } else {
            None
        },
        None => None,
    }
}

/// Reads the key references between the brackets from the cursor.
fn parse_keys_at(text: &Vec<char>, pos: usize) -> (r: Option<(Vec<Key>, usize)>)
    requires
        pos <= text@.len(),
    ensures
        match r {
            Some(v) => pos <= v.1 <= text@.len() && spec_parse_keys(suffix_at(text@, pos as int))
                == Some((v.0@.map_values(|k: Key| spec_key_model(k)), suffix_at(text@, v.1 as int))),
            None => spec_parse_keys(suffix_at(text@, pos as int)) is None,
        },
{
    let ghost suf = suffix_at(text@, pos as int);
    if pos >= text.len() {
        return None;
    }
    assert(suf[0] == text@[pos as int]);
    if text[pos] == ']' {
        let empty: Vec<Key> = Vec::new();
        assert(empty@.map_values(|k: Key| spec_key_model(k)) =~= Seq::<KeyModel>::empty());
        return Some((empty, pos));
    }
    let mut acc: Vec<Key> = Vec::new();
    let mut cur: usize = pos;
    loop
        invariant
            pos <= cur <= text@.len(),
            text@.len() <= usize::MAX,
            suf == suffix_at(text@, pos as int),
            spec_parse_keys(suf) == prepend_keys(
                acc@.map_values(|k: Key| spec_key_model(k)),
                spec_parse_keys(suffix_at(text@, cur as int)),
            ),
            acc@.len() == 0 ==> cur == pos,
            cur == pos ==> suf.len() > 0 && suf[0] != ']',
        decreases text@.len() - cur,
    {
        let ghost p = acc@.map_values(|k: Key| spec_key_model(k));
        let ghost cursuf = suffix_at(text@, cur as int);
        if cur >= text.len() {
            assert(cursuf.len() == 0);
            return None;
        }
        assert(cursuf[0] == text@[cur as int]);
        if text[cur] == ']' {
            if acc.len() == 0 {
                proof {
                    assert(false);
                }
            }
            assert(spec_parse_keys(cursuf) == Some((Seq::<KeyModel>::empty(), cursuf)));
            return None;
        }
        let (key, e) = match parse_key_at(text, cur) {
            Some(v) => v,
            None => {
                return None;
            },
        };
        let ghost esuf = suffix_at(text@, e as int);
        if e < text.len() && text[e] == ',' {
            assert(esuf[0] == ',');
            assert(esuf.drop_first() =~= suffix_at(text@, e + 1));
            proof {
                let km = spec_key_model(key);
                let inner = spec_parse_keys(suffix_at(text@, e + 1));
                assert(spec_parse_keys(cursuf) == prepend_keys(seq![km], inner));
                match inner {
                    Some(x) => {
                        if x.0.len() > 0 {
                            assert(p + (seq![km] + x.0) =~= p.push(km) + x.0);
                        }
                    },
                    None => {},
                }
                assert(acc@.push(key).map_values(|k: Key| spec_key_model(k)) =~= p.push(km));
            }
            acc.push(key);
            cur = e + 1;
        } else if e < text.len() && text[e] == ']' {
            assert(esuf[0] == ']');
            proof {
                let km = spec_key_model(key);
                assert(spec_parse_keys(cursuf) == Some((seq![km], esuf)));
                assert(p + seq![km] =~= p.push(km));
                assert(acc@.push(key).map_values(|k: Key| spec_key_model(k)) =~= p.push(km));
            }
            acc.push(key);
            return Some((acc, e));
        } else {
            proof {
                if esuf.len() > 0 {
                    assert(esuf[0] == text@[e as int]);
                }
                assert(spec_parse_keys(cursuf) is None);
            }
            return None;
        }
    }
}

/// Prefixes already-read indices onto an index-list parse; after a separator
/// the tail may not be empty.
spec fn prepend_indices(p: Seq<u64>, r: Option<(Seq<u64>, Seq<char>)>) -> Option<
    (Seq<u64>, Seq<char>),
> {
    match r {
        Some(x) => if p.len() == 0 || x.0.len() > 0 {
            Some((p + x.0, x.1))
        } else {
            None
        },
        None => None,
    }
}

/// Reads the indices between a combination's brackets from the cursor.
fn parse_indices_at(text: &Vec<char>, pos: usize) -> (r: Option<(Vec<u64>, usize)>)
    requires
        pos <= text@.len(),
    ensures
        match r {
            Some(v) => pos <= v.1 <= text@.len() && spec_parse_indices(
                suffix_at(text@, pos as int),
            ) == Some((v.0@, suffix_at(text@, v.1 as int))),
            None => spec_parse_indices(suffix_at(text@, pos as int)) is None,
        },
{
    let ghost suf = suffix_at(text@, pos as int);
    if pos >= text.len() {
        return None;
    }
    assert(suf[0] == text@[pos as int]);
    if text[pos] == ']' {
        let empty: Vec<u64> = Vec::new();
        assert(empty@ =~= Seq::<u64>::empty());
        return Some((empty, pos));
    }
    let mut acc: Vec<u64> = Vec::new();
    let mut cur: usize = pos;
    loop
        invariant
            pos <= cur <= text@.len(),
            text@.len() <= usize::MAX,
            suf == suffix_at(text@, pos as int),
            spec_parse_indices(suf) == prepend_indices(
                acc@,
                spec_parse_indices(suffix_at(text@, cur as int)),
            ),
            acc@.len() == 0 ==> cur == pos,
            cur == pos ==> suf.len() > 0 && suf[0] != ']',
        decreases text@.len() - cur,
    {
        let ghost p = acc@;
        let ghost cursuf = suffix_at(text@, cur as int);
        if cur >= text.len() {
            assert(cursuf.len() == 0);
            return None;
        }
        assert(cursuf[0] == text@[cur as int]);
        if text[cur] == ']' {
            if acc.len() == 0 {
                proof {
                    assert(false);
                }
            }
            assert(spec_parse_indices(cursuf) == Some((Seq::<u64>::empty(), cursuf)));
            return None;
        }
        let (x, e) = match parse_u64_at(text, cur) {
            Some(v) => v,
            None => {
                return None;
            },
        };
        let ghost esuf = suffix_at(text@, e as int);
        if e < text.len() && text[e] == ',' {
            assert(esuf[0] == ',');
            assert(esuf.drop_first() =~= suffix_at(text@, e + 1));
            proof {
                let inner = spec_parse_indices(suffix_at(text@, e + 1));
                assert(spec_parse_indices(cursuf) == prepend_indices(seq![x], inner));
                match inner {
                    Some(y) => {
                        if y.0.len() > 0 {
                            assert(p + (seq![x] + y.0) =~= p.push(x) + y.0);
                        }
                    },
                    None => {},
                }
            }
            acc.push(x);
            cur = e + 1;
        } else if e < text.len() && text[e] == ']' {
            assert(esuf[0] == ']');
            proof {
                assert(spec_parse_indices(cursuf) == Some((seq![x], esuf)));
                assert(p + seq![x] =~= p.push(x));
            }
            acc.push(x);
            return Some((acc, e));
        } else {
            proof {
                if esuf.len() > 0 {
                    assert(esuf[0] == text@[e as int]);
                }
                assert(spec_parse_indices(cursuf) is None);
            }
            return None;
        }
    }
}

/// Reads one combination from the cursor.
fn parse_set_at(text: &Vec<char>, pos: usize) -> (r: Option<(Vec<u64>, usize)>)
    requires
        pos <= text@.len(),
    ensures
        match r {
            Some(v) => pos <= v.1 <= text@.len() && spec_parse_set(suffix_at(text@, pos as int))
                == Some((v.0@, suffix_at(text@, v.1 as int))),
            None => spec_parse_set(suffix_at(text@, pos as int)) is None,
        },
{
    let mut open_b: Vec<char> = Vec::new();
    open_b.push('[');
    assert(open_b@ =~= seq!['[']);
    let p1 = match expect_lit(text, pos, &open_b) {
        Some(p) => p,
        None => {
            return None;
        },
    };
    let (xs, p2) = match parse_indices_at(text, p1) {
        Some(v) => v,
        None => {
            return None;
        },
    };
    let mut close_b: Vec<char> = Vec::new();
    close_b.push(']');
    assert(close_b@ =~= seq![']']);
    let p3 = match expect_lit(text, p2, &close_b) {
        Some(p) => p,
        None => {
            return None;
        },
    };
    Some((xs, p3))
}

/// Prefixes already-read combinations onto a combination-list parse; after a
/// separator the tail may not be empty.
spec fn prepend_sets(p: Seq<Seq<u64>>, r: Option<(Seq<Seq<u64>>, Seq<char>)>) -> Option<
    (Seq<Seq<u64>>, Seq<char>),
> {
    match r {
        Some(x) => if p.len() == 0 || x.0.len() > 0 {
            Some((p + x.0, x.1))
        } else {
            None
        },
        None => None,
    }
}

/// Reads the combinations between the brackets from the cursor.
fn parse_sets_at(text: &Vec<char>, pos: usize) -> (r: Option<(Vec<Vec<u64>>, usize)>)
    requires
        pos <= text@.len(),
    ensures
        match r {
            Some(v) => pos <= v.1 <= text@.len() && spec_parse_sets(suffix_at(text@, pos as int))
                == Some((v.0.deep_view(), suffix_at(text@, v.1 as int))),
            None => spec_parse_sets(suffix_at(text@, pos as int)) is None,
        },
{
    let ghost suf = suffix_at(text@, pos as int);
    if pos >= text.len() {
        return None;
    }
    assert(suf[0] == text@[pos as int]);
    if text[pos] == ']' {
        let empty: Vec<Vec<u64>> = Vec::new();
        assert(empty.deep_view() =~= Seq::<Seq<u64>>::empty());
        return Some((empty, pos));
    }
    let mut acc: Vec<Vec<u64>> = Vec::new();
    let mut cur: usize = pos;
    loop
        invariant
            pos <= cur <= text@.len(),
            text@.len() <= usize::MAX,
            suf == suffix_at(text@, pos as int),
            spec_parse_sets(suf) == prepend_sets(
                acc.deep_view(),
                spec_parse_sets(suffix_at(text@, cur as int)),
            ),
            acc@.len() == 0 ==> cur == pos,
            cur == pos ==> suf.len() > 0 && suf[0] != ']',
        decreases text@.len() - cur,
    {
        let ghost p = acc.deep_view();
        let ghost cursuf = suffix_at(text@, cur as int);
        if cur >= text.len() {
            assert(cursuf.len() == 0);
            return None;
        }
        assert(cursuf[0] == text@[cur as int]);
        if text[cur] == ']' {
            if acc.len() == 0 {
                proof {
                    assert(acc.deep_view().len() == acc@.len());
                    assert(false);
                }
            }
            assert(acc.deep_view().len() == acc@.len());
            assert(spec_parse_sets(cursuf) == Some((Seq::<Seq<u64>>::empty(), cursuf)));
            return None;
        }
        let (s, e) = match parse_set_at(text, cur) {
            Some(v) => v,
            None => {
                return None;
            },
        };
        let ghost esuf = suffix_at(text@, e as int);
        let ghost sview = s@;
        if e < text.len() && text[e] == ',' {
            assert(esuf[0] == ',');
            assert(esuf.drop_first() =~= suffix_at(text@, e + 1));
            proof {
                let inner = spec_parse_sets(suffix_at(text@, e + 1));
                assert(spec_parse_sets(cursuf) == prepend_sets(seq![sview], inner));
                match inner {
                    Some(y) => {
                        if y.0.len() > 0 {
                            assert(p + (seq![sview] + y.0) =~= p.push(sview) + y.0);
                        }
                    },
                    None => {},
                }
                assert(acc.deep_view().len() == acc@.len());
            }
            acc.push(s);
            proof {
                assert(acc.deep_view() =~~= p.push(sview));
            }
            cur = e + 1;
        } else if e < text.len() && text[e] == ']' {
            assert(esuf[0] == ']');
            proof {
                assert(spec_parse_sets(cursuf) == Some((seq![sview], esuf)));
                assert(p + seq![sview] =~= p.push(sview));
                assert(acc.deep_view().len() == acc@.len());
            }
            acc.push(s);
            proof {
                assert(acc.deep_view() =~~= p.push(sview));
            }
            return Some((acc, e));
        } else {
            proof {
                if esuf.len() > 0 {
                    assert(esuf[0] == text@[e as int]);
                }
                assert(spec_parse_sets(cursuf) is None);
            }
            return None;
        }
    }
}

/// Parses the canonical record text back into its key references and
/// threshold combinations; anything else — a prefix, trailing text, a foreign
/// shape — is rejected. On the text `encode_sender` produced, this returns
/// exactly the encoded record (see `lemma_encode_parse_round_trip`).
pub fn parse_sender(text: &str) -> (parsed: Option<Sender>)
    ensures
        match parsed {
            Some(sender) => spec_parse_sender(text@) == Some(spec_sender_model(sender)),
            None => spec_parse_sender(text@) is None,
        },
{
    let chars = str_chars(text);
    proof {
        assert(suffix_at(chars@, 0) =~= text@);
    }
    let lit_open = lit_vec(0);
    let p1 = match expect_lit(&chars, 0, &lit_open) {
        Some(p) => p,
        None => {
            return None;
        },
    };
    let (keys, p2) = match parse_keys_at(&chars, p1) {
        Some(v) => v,
        None => {
            return None;
        },
    };
    let lit_mid = lit_vec(1);
    let p3 = match expect_lit(&chars, p2, &lit_mid) {
        Some(p) => p,
        None => {
            return None;
        },
    };
    let (sets, p4) = match parse_sets_at(&chars, p3) {
        Some(v) => v,
        None => {
            return None;
        },
    };
    let lit_close = lit_vec(2);
    let p5 = match expect_lit(&chars, p4, &lit_close) {
        Some(p) => p,
        None => {
            return None;
        },
    };
    if p5 != chars.len() {
        assert(suffix_at(chars@, p5 as int).len() > 0);
        return None;
    }
    assert(suffix_at(chars@, p5 as int).len() == 0);
    let sender = Sender { keys, sets };
    proof {
        assert(spec_sender_model(sender).keys =~= keys@.map_values(|k: Key| spec_key_model(k)));
        assert(spec_sender_model(sender).sets == sets.deep_view());
    }
    Some(sender)
}

} // verus!
