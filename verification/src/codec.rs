//! The message codec: the wire envelope as a single JSON text frame.
//!
//! The canonical frame is a JSON object with an explicit discriminant field
//! and one field per optional payload:
//!
//! ```text
//! {"message_type":"NewMessage","message":{"message":"hi","author":"Alice",
//!  "created_at":"2024-01-02T03:04:05"},"users":null,"username":null}
//! ```
//!
//! [`encode_message`] produces exactly this form; [`spec_encode`] is its
//! mathematical statement.  [`decode_message`] is best-effort: it accepts
//! precisely the canonical client frames (chat post and rename request) and
//! fails on everything else; the session handler treats a failure as "ignore
//! this frame".

use crate::wire::wf_client;
use crate::wire::ChatMessages;
use crate::wire::ChatMessagesView;
use crate::wire::Timestamp;
use crate::wire::WebSocketMessage;
use crate::wire::WebSocketMessageType;
use crate::wire::WebSocketMessageView;
use vstd::prelude::*;

verus! {

// ---------------------------------------------------------------------------
// Digits
// ---------------------------------------------------------------------------

/// The character for one digit value, `0..=15` (decimal digits and the
/// lowercase hex digits used in control-character escapes).
pub open spec fn digit_char(n: int) -> char {
    if n == 0 {
        '0'
    } else if n == 1 {
        '1'
    } else if n == 2 {
        '2'
    } else if n == 3 {
        '3'
    } else if n == 4 {
        '4'
    } else if n == 5 {
        '5'
    } else if n == 6 {
        '6'
    } else if n == 7 {
        '7'
    } else if n == 8 {
        '8'
    } else if n == 9 {
        '9'
    } else if n == 10 {
        'a'
    } else if n == 11 {
        'b'
    } else if n == 12 {
        'c'
    } else if n == 13 {
        'd'
    } else if n == 14 {
        'e'
    } else {
        'f'
    }
}

/// The value of a digit character, or `-1` when the character is no digit.
pub open spec fn hex_val(c: char) -> int {
    if c == '0' {
        0
    } else if c == '1' {
        1
    } else if c == '2' {
        2
    } else if c == '3' {
        3
    } else if c == '4' {
        4
    } else if c == '5' {
        5
    } else if c == '6' {
        6
    } else if c == '7' {
        7
    } else if c == '8' {
        8
    } else if c == '9' {
        9
    } else if c == 'a' {
        10
    } else if c == 'b' {
        11
    } else if c == 'c' {
        12
    } else if c == 'd' {
        13
    } else if c == 'e' {
        14
    } else if c == 'f' {
        15
    } else {
        -1
    }
}

/// Every character's code point is in the unicode scalar range.
proof fn lemma_char_bounds(c: char)
    ensures
        0 <= (c as int) <= 0x10FFFF,
{
}

pub proof fn lemma_digit_char_val(n: int)
    requires
        0 <= n <= 15,
    ensures
        hex_val(digit_char(n)) == n,
{
}

fn digit_to_char(n: u32) -> (c: char)
    requires
        n <= 15,
    ensures
        c == digit_char(n as int),
{
    if n == 0 {
        '0'
    } else if n == 1 {
        '1'
    } else if n == 2 {
        '2'
    } else if n == 3 {
        '3'
    } else if n == 4 {
        '4'
    } else if n == 5 {
        '5'
    } else if n == 6 {
        '6'
    } else if n == 7 {
        '7'
    } else if n == 8 {
        '8'
    } else if n == 9 {
        '9'
    } else if n == 10 {
        'a'
    } else if n == 11 {
        'b'
    } else if n == 12 {
        'c'
    } else if n == 13 {
        'd'
    } else if n == 14 {
        'e'
    } else {
        'f'
    }
}

/// The decimal digit value of a character, `None` when it is not `0..=9`.
fn decimal_val_of(c: char) -> (r: Option<u32>)
    ensures
        match r {
            Some(v) => 0 <= hex_val(c) <= 9 && v == hex_val(c),
            None => !(0 <= hex_val(c) <= 9),
        },
{
    if c == '0' {
        Some(0)
    } else if c == '1' {
        Some(1)
    } else if c == '2' {
        Some(2)
    } else if c == '3' {
        Some(3)
    } else if c == '4' {
        Some(4)
    } else if c == '5' {
        Some(5)
    } else if c == '6' {
        Some(6)
    } else if c == '7' {
        Some(7)
    } else if c == '8' {
        Some(8)
    } else if c == '9' {
        Some(9)
    } else {
        None
    }
}

// ---------------------------------------------------------------------------
// Appending to a String
// ---------------------------------------------------------------------------

/// Relies on `String::push`: appends exactly the given character.
#[verifier::external_body]
pub(crate) fn push_char(s: &mut String, c: char)
    ensures
        final(s)@ == old(s)@.push(c),
{
    s.push(c);
}

/// The decimal representation of `n`, most significant digit first, with no
/// leading zero (a single `'0'` for zero).
pub open spec fn spec_dec(n: nat) -> Seq<char>
    decreases n,
{
    if n < 10 {
        seq![digit_char(n as int)]
    } else {
        spec_dec(n / 10).push(digit_char((n % 10) as int))
    }
}

/// Appends the decimal representation of `n`.
pub fn push_dec(out: &mut String, n: usize)
    ensures
        final(out)@ == old(out)@ + spec_dec(n as nat),
    decreases n,
{
    if n < 10 {
        push_char(out, digit_to_char(n as u32));
        proof {
            assert(out@ =~= old(out)@ + spec_dec(n as nat));
        }
    } else {
        push_dec(out, n / 10);
        push_char(out, digit_to_char((n % 10) as u32));
        proof {
            assert(out@ =~= old(out)@ + spec_dec(n as nat));
        }
    }
}

/// Exactly two digits, zero padded; only the last two decimal digits of `n`
/// are shown.
pub open spec fn spec_two_digits(n: int) -> Seq<char> {
    seq![digit_char(n / 10 % 10), digit_char(n % 10)]
}

/// Exactly four digits, zero padded; only the last four decimal digits of
/// `n` are shown.
pub open spec fn spec_four_digits(n: int) -> Seq<char> {
    seq![
        digit_char(n / 1000 % 10),
        digit_char(n / 100 % 10),
        digit_char(n / 10 % 10),
        digit_char(n % 10),
    ]
}

fn push_two_digits(out: &mut String, n: u32)
    ensures
        final(out)@ == old(out)@ + spec_two_digits(n as int),
{
    push_char(out, digit_to_char(n / 10 % 10));
    push_char(out, digit_to_char(n % 10));
    proof {
        assert(out@ =~= old(out)@ + spec_two_digits(n as int));
    }
}

fn push_four_digits(out: &mut String, n: u32)
    ensures
        final(out)@ == old(out)@ + spec_four_digits(n as int),
{
    push_char(out, digit_to_char(n / 1000 % 10));
    push_char(out, digit_to_char(n / 100 % 10));
    push_char(out, digit_to_char(n / 10 % 10));
    push_char(out, digit_to_char(n % 10));
    proof {
        assert(out@ =~= old(out)@ + spec_four_digits(n as int));
    }
}

// ---------------------------------------------------------------------------
// Timestamps
// ---------------------------------------------------------------------------

/// `YYYY-MM-DDTHH:MM:SS`, always nineteen characters.
pub open spec fn spec_fmt_ts(t: Timestamp) -> Seq<char> {
    spec_four_digits(t.year as int) + seq!['-'] + spec_two_digits(t.month as int) + seq!['-']
        + spec_two_digits(t.day as int) + seq!['T'] + spec_two_digits(t.hour as int) + seq![':']
        + spec_two_digits(t.minute as int) + seq![':'] + spec_two_digits(t.second as int)
}

pub fn push_timestamp(out: &mut String, t: Timestamp)
    ensures
        final(out)@ == old(out)@ + spec_fmt_ts(t),
{
    push_four_digits(out, t.year);
    push_char(out, '-');
    push_two_digits(out, t.month);
    push_char(out, '-');
    push_two_digits(out, t.day);
    push_char(out, 'T');
    push_two_digits(out, t.hour);
    push_char(out, ':');
    push_two_digits(out, t.minute);
    push_char(out, ':');
    push_two_digits(out, t.second);
    proof {
        assert(out@ =~= old(out)@ + spec_fmt_ts(t));
    }
}

// ---------------------------------------------------------------------------
// JSON strings
// ---------------------------------------------------------------------------

/// The escape of one character inside a JSON string: quote and backslash get
/// a backslash, the three common control characters get their named escapes,
/// every other control character becomes `\u00xx`, and everything else
/// stands for itself.
pub open spec fn esc_char(c: char) -> Seq<char> {
    if c == '"' {
        seq!['\\', '"']
    } else if c == '\\' {
        seq!['\\', '\\']
    } else if c == '\n' {
        seq!['\\', 'n']
    } else if c == '\r' {
        seq!['\\', 'r']
    } else if c == '\t' {
        seq!['\\', 't']
    } else if (c as int) < 0x20 {
        seq!['\\', 'u', '0', '0', digit_char(c as int / 16), digit_char(c as int % 16)]
    } else {
        seq![c]
    }
}

/// The body of a JSON string: every character escaped, in order.
pub open spec fn spec_escaped(s: Seq<char>) -> Seq<char>
    decreases s.len(),
{
    if s.len() == 0 {
        Seq::empty()
    } else {
        spec_escaped(s.drop_last()) + esc_char(s.last())
    }
}

/// A whole JSON string: quote, escaped body, quote.
pub open spec fn spec_json_string(s: Seq<char>) -> Seq<char> {
    seq!['"'] + spec_escaped(s) + seq!['"']
}

/// Escaping distributes over concatenation.
pub proof fn lemma_escaped_add(a: Seq<char>, b: Seq<char>)
    ensures
        spec_escaped(a + b) == spec_escaped(a) + spec_escaped(b),
    decreases b.len(),
{
    if b.len() == 0 {
        assert(a + b =~= a);
        assert(spec_escaped(a) + spec_escaped(b) =~= spec_escaped(a));
    } else {
        lemma_escaped_add(a, b.drop_last());
        assert((a + b).drop_last() =~= a + b.drop_last());
        assert((a + b).last() == b.last());
        assert(spec_escaped(a) + spec_escaped(b.drop_last()) + esc_char(b.last()) =~= spec_escaped(
            a,
        ) + (spec_escaped(b.drop_last()) + esc_char(b.last())));
    }
}

/// The first character of a sequence escapes first.
pub proof fn lemma_escaped_first(s: Seq<char>)
    requires
        s.len() > 0,
    ensures
        spec_escaped(s) == esc_char(s[0]) + spec_escaped(s.drop_first()),
{
    assert(s =~= seq![s[0]] + s.drop_first());
    lemma_escaped_add(seq![s[0]], s.drop_first());
    assert(spec_escaped(seq![s[0]]) =~= esc_char(s[0])) by {
        let t = seq![s[0]];
        assert(t.len() == 1);
        assert(t.last() == s[0]);
        assert(t.drop_last() =~= Seq::<char>::empty());
        assert(spec_escaped(t.drop_last()) == Seq::<char>::empty());
        assert(spec_escaped(t) == spec_escaped(t.drop_last()) + esc_char(t.last()));
        assert(spec_escaped(t) =~= esc_char(s[0]));
    }
}

fn push_escaped_char(out: &mut String, c: char)
    ensures
        final(out)@ == old(out)@ + esc_char(c),
{
    if c == '"' {
        push_char(out, '\\');
        push_char(out, '"');
    } else if c == '\\' {
        push_char(out, '\\');
        push_char(out, '\\');
    } else if c == '\n' {
        push_char(out, '\\');
        push_char(out, 'n');
    } else if c == '\r' {
        push_char(out, '\\');
        push_char(out, 'r');
    } else if c == '\t' {
        push_char(out, '\\');
        push_char(out, 't');
    } else if (c as u32) < 0x20 {
        push_char(out, '\\');
        push_char(out, 'u');
        push_char(out, '0');
        push_char(out, '0');
        push_char(out, digit_to_char((c as u32) / 16));
        push_char(out, digit_to_char((c as u32) % 16));
    } else {
        push_char(out, c);
    }
    proof {
        assert(out@ =~= old(out)@ + esc_char(c));
    }
}

/// Appends the JSON string for `s`, quotes included.
pub fn push_json_string(out: &mut String, s: &str)
    ensures
        final(out)@ == old(out)@ + spec_json_string(s@),
{
    push_char(out, '"');
    let n = s.unicode_len();
    let mut i: usize = 0;
    while i < n
        invariant
            n == s@.len(),
            i <= n,
            out@ == old(out)@.push('"') + spec_escaped(s@.take(i as int)),
        decreases n - i,
    {
        let c = s.get_char(i);
        push_escaped_char(out, c);
        proof {
            assert(s@.take(i + 1).drop_last() =~= s@.take(i as int));
            assert(s@.take(i + 1).last() == s@[i as int]);
            assert(out@ =~= old(out)@.push('"') + spec_escaped(s@.take(i + 1)));
        }
        i += 1;
    }
    push_char(out, '"');
    proof {
        assert(s@.take(n as int) =~= s@);
        assert(out@ =~= old(out)@ + spec_json_string(s@));
    }
}

// ---------------------------------------------------------------------------
// The envelope
// ---------------------------------------------------------------------------

/// The discriminant as it appears on the wire.
pub open spec fn spec_type_tag(t: WebSocketMessageType) -> Seq<char> {
    match t {
        WebSocketMessageType::NewMessage => "NewMessage"@,
        WebSocketMessageType::UsersList => "UsersList"@,
        WebSocketMessageType::UsernameChange => "UsernameChange"@,
    }
}

/// The chat-message payload object.
pub open spec fn spec_chat_obj(m: ChatMessagesView) -> Seq<char> {
    "{\"message\":"@ + spec_json_string(m.message) + ",\"author\":"@ + spec_json_string(m.author)
        + ",\"created_at\":\""@ + spec_fmt_ts(m.created_at) + "\"}"@
}

/// The elements of the roster array, comma separated.
pub open spec fn spec_users_items(users: Seq<Seq<char>>) -> Seq<char>
    decreases users.len(),
{
    if users.len() == 0 {
        Seq::empty()
    } else if users.len() == 1 {
        spec_json_string(users[0])
    } else {
        spec_users_items(users.drop_last()) + ","@ + spec_json_string(users.last())
    }
}

/// The roster array, brackets included.
pub open spec fn spec_users_array(users: Seq<Seq<char>>) -> Seq<char> {
    "["@ + spec_users_items(users) + "]"@
}

pub open spec fn spec_opt_chat(m: Option<ChatMessagesView>) -> Seq<char> {
    match m {
        None => "null"@,
        Some(c) => spec_chat_obj(c),
    }
}

pub open spec fn spec_opt_users(u: Option<Seq<Seq<char>>>) -> Seq<char> {
    match u {
        None => "null"@,
        Some(users) => spec_users_array(users),
    }
}

pub open spec fn spec_opt_username(u: Option<Seq<char>>) -> Seq<char> {
    match u {
        None => "null"@,
        Some(s) => spec_json_string(s),
    }
}

/// The canonical frame for an envelope.
pub open spec fn spec_encode(m: WebSocketMessageView) -> Seq<char> {
    "{\"message_type\":\""@ + spec_type_tag(m.message_type) + "\",\"message\":"@ + spec_opt_chat(
        m.message,
    ) + ",\"users\":"@ + spec_opt_users(m.users) + ",\"username\":"@ + spec_opt_username(m.username)
        + "}"@
}

// ---------------------------------------------------------------------------
// Decoding: structure of canonical text
// ---------------------------------------------------------------------------

/// `piece` stands verbatim in `t` at position `i`.
pub open spec fn matches_at(t: Seq<char>, i: int, piece: Seq<char>) -> bool {
    &&& 0 <= i
    &&& i + piece.len() <= t.len()
    &&& t.subrange(i, i + piece.len() as int) == piece
}

/// The body of a JSON string, closing quote included, stands in `t` at
/// position `i` and decodes to `vv`.
pub open spec fn string_at(t: Seq<char>, i: int, vv: Seq<char>) -> bool {
    matches_at(t, i, spec_escaped(vv) + seq!['"'])
}

proof fn lemma_matches_split(t: Seq<char>, i: int, x: Seq<char>, y: Seq<char>)
    requires
        matches_at(t, i, x + y),
    ensures
        matches_at(t, i, x),
        matches_at(t, i + x.len(), y),
{
    assert(t.subrange(i, i + x.len() as int) =~= x) by {
        assert(forall|k: int|
            0 <= k < x.len() ==> t.subrange(i, i + (x + y).len() as int)[k] == (x + y)[k]);
    }
    assert forall|k: int| 0 <= k < y.len() implies t.subrange(
        i + x.len(),
        i + x.len() + y.len() as int,
    )[k] == y[k] by {
        assert(t.subrange(i, i + (x + y).len() as int)[x.len() + k] == (x + y)[x.len() + k]);
        assert(t.subrange(i, i + (x + y).len() as int)[x.len() + k] == t[i + x.len() + k]);
        assert((x + y)[x.len() + k] == y[k]);
        assert(t.subrange(i + x.len(), i + x.len() + y.len() as int)[k] == t[i + x.len() + k]);
    }
    assert(t.subrange(i + x.len(), i + x.len() + y.len() as int) =~= y);
}

/// The first character of any escape block: never a quote, never a control
/// character; a backslash exactly for the escaped characters.
proof fn lemma_esc_first(c: char)
    ensures
        esc_char(c).len() >= 1,
        esc_char(c)[0] != '"',
        (esc_char(c)[0] as int) >= 0x20,
        (esc_char(c)[0] == '\\') <==> (c == '"' || c == '\\' || (c as int) < 0x20),
        esc_char(c)[0] != '\\' ==> esc_char(c) == seq![c],
{
}

/// What the second character of an escape block says about the character it
/// encodes.
proof fn lemma_esc_second(c: char)
    requires
        esc_char(c)[0] == '\\',
    ensures
        esc_char(c).len() >= 2,
        esc_char(c)[1] == '"' || esc_char(c)[1] == '\\' || esc_char(c)[1] == 'n' || esc_char(
            c,
        )[1] == 'r' || esc_char(c)[1] == 't' || esc_char(c)[1] == 'u',
        esc_char(c)[1] == '"' ==> c == '"' && esc_char(c) == seq!['\\', '"'],
        esc_char(c)[1] == '\\' ==> c == '\\' && esc_char(c) == seq!['\\', '\\'],
        esc_char(c)[1] == 'n' ==> c == '\n' && esc_char(c) == seq!['\\', 'n'],
        esc_char(c)[1] == 'r' ==> c == '\r' && esc_char(c) == seq!['\\', 'r'],
        esc_char(c)[1] == 't' ==> c == '\t' && esc_char(c) == seq!['\\', 't'],
        esc_char(c)[1] == 'u' ==> (c as int) < 0x20 && c != '\n' && c != '\r' && c != '\t' && c
            != '"' && c != '\\' && esc_char(c) == seq![
            '\\',
            'u',
            '0',
            '0',
            digit_char(c as int / 16),
            digit_char(c as int % 16),
        ],
{
    lemma_esc_first(c);
    if c == '"' || c == '\\' || c == '\n' || c == '\r' || c == '\t' {
    } else {
        assert((c as int) < 0x20);
        assert(0 <= c as int / 16 <= 1);
        lemma_digit_char_val(c as int / 16);
        lemma_digit_char_val(c as int % 16);
        assert(esc_char(c)[1] == 'u');
    }
}

/// Two escape blocks standing at the same position encode the same
/// character.
proof fn lemma_esc_det(t: Seq<char>, i: int, c1: char, c2: char)
    requires
        matches_at(t, i, esc_char(c1)),
        matches_at(t, i, esc_char(c2)),
    ensures
        c1 == c2,
{
    lemma_esc_first(c1);
    lemma_esc_first(c2);
    assert(t[i] == esc_char(c1)[0]);
    assert(t[i] == esc_char(c2)[0]);
    if esc_char(c1)[0] != '\\' {
        assert(c1 == t[i]);
        assert(esc_char(c2)[0] == c1);
        assert(esc_char(c2)[0] != '\\');
        assert(c2 == t[i]);
    } else {
        lemma_esc_second(c1);
        lemma_esc_second(c2);
        assert(t[i + 1] == esc_char(c1)[1]);
        assert(t[i + 1] == esc_char(c2)[1]);
        if esc_char(c1)[1] == 'u' {
            assert(t[i + 4] == digit_char(c1 as int / 16));
            assert(t[i + 5] == digit_char(c1 as int % 16));
            assert(t[i + 4] == digit_char(c2 as int / 16));
            assert(t[i + 5] == digit_char(c2 as int % 16));
            lemma_digit_char_val(c1 as int / 16);
            lemma_digit_char_val(c1 as int % 16);
            lemma_digit_char_val(c2 as int / 16);
            lemma_digit_char_val(c2 as int % 16);
            assert(c1 as int / 16 == c2 as int / 16);
            assert(c1 as int % 16 == c2 as int % 16);
            assert(c1 as int == c2 as int);
        }
    }
}

/// A scanned prefix that unescapes to `a` is consistent with exactly one
/// continuation of any JSON string standing at `i`: either the whole body
/// has been read and the closing quote is next, or the escape block of the
/// next character is next.
proof fn lemma_scan_state(t: Seq<char>, i: int, p: int, a: Seq<char>, vv: Seq<char>)
    requires
        0 <= i <= p <= t.len(),
        t.subrange(i, p) == spec_escaped(a),
        string_at(t, i, vv),
    ensures
        a.len() <= vv.len(),
        a == vv.take(a.len() as int),
        p == i + spec_escaped(vv.take(a.len() as int)).len(),
        a.len() == vv.len() ==> p == i + spec_escaped(vv).len() && p < t.len() && t[p] == '"',
        a.len() < vv.len() ==> matches_at(t, p, esc_char(vv[a.len() as int])),
    decreases a.len(),
{
    assert(p - i == spec_escaped(a).len());
    if a.len() == 0 {
        assert(a =~= vv.take(0));
        if vv.len() > 0 {
            let whole = spec_escaped(vv) + seq!['"'];
            lemma_escaped_first(vv);
            assert(spec_escaped(vv) == esc_char(vv[0]) + spec_escaped(vv.drop_first()));
            assert(whole =~= esc_char(vv[0]) + (spec_escaped(vv.drop_first()) + seq!['"']));
            lemma_matches_split(t, i, esc_char(vv[0]), spec_escaped(vv.drop_first()) + seq!['"']);
        } else {
            assert((spec_escaped(vv) + seq!['"'])[0] == '"');
            assert(t[i] == '"');
        }
    } else {
        // the first block of `a` and of `vv` coincide
        lemma_escaped_first(a);
        lemma_esc_first(a[0]);
        assert(spec_escaped(a) == esc_char(a[0]) + spec_escaped(a.drop_first()));
        assert(matches_at(t, i, spec_escaped(a)));
        lemma_matches_split(t, i, esc_char(a[0]), spec_escaped(a.drop_first()));
        if vv.len() == 0 {
            assert((spec_escaped(vv) + seq!['"'])[0] == '"');
            assert(t[i] == '"');
            assert(t[i] == esc_char(a[0])[0]);
            assert(false);
        }
        lemma_escaped_first(vv);
        let whole = spec_escaped(vv) + seq!['"'];
        assert(whole =~= esc_char(vv[0]) + (spec_escaped(vv.drop_first()) + seq!['"']));
        lemma_matches_split(t, i, esc_char(vv[0]), spec_escaped(vv.drop_first()) + seq!['"']);
        lemma_esc_det(t, i, a[0], vv[0]);
        let l0 = esc_char(a[0]).len() as int;
        let a2 = a.drop_first();
        let v2 = vv.drop_first();
        assert(t.subrange(i + l0, p) =~= spec_escaped(a2)) by {
            assert(matches_at(t, i + l0, spec_escaped(a2)));
            assert(p == i + l0 + spec_escaped(a2).len());
        }
        lemma_scan_state(t, i + l0, p, a2, v2);
        assert(a =~= vv.take(a.len() as int)) by {
            assert(a2 == v2.take(a2.len() as int));
            assert(forall|k: int| 1 <= k < a.len() ==> a[k] == a2[k - 1]);
            assert(forall|k: int|
                1 <= k < a.len() ==> #[trigger] vv.take(a.len() as int)[k] == v2.take(
                    a2.len() as int,
                )[k - 1]);
        }
        assert(spec_escaped(vv.take(a.len() as int)) == spec_escaped(a));
        if a.len() == vv.len() {
            assert(spec_escaped(vv) == esc_char(vv[0]) + spec_escaped(v2));
        } else {
            assert(v2[a2.len() as int] == vv[a.len() as int]);
        }
    }
}

/// The hex digit value of a character, `None` when it is not `0..=9`,
/// `a..=f`.
fn hex_val_of(c: char) -> (r: Option<u8>)
    ensures
        match r {
            Some(v) => 0 <= hex_val(c) && v == hex_val(c),
            None => hex_val(c) < 0,
        },
{
    if c == '0' {
        Some(0)
    } else if c == '1' {
        Some(1)
    } else if c == '2' {
        Some(2)
    } else if c == '3' {
        Some(3)
    } else if c == '4' {
        Some(4)
    } else if c == '5' {
        Some(5)
    } else if c == '6' {
        Some(6)
    } else if c == '7' {
        Some(7)
    } else if c == '8' {
        Some(8)
    } else if c == '9' {
        Some(9)
    } else if c == 'a' {
        Some(10)
    } else if c == 'b' {
        Some(11)
    } else if c == 'c' {
        Some(12)
    } else if c == 'd' {
        Some(13)
    } else if c == 'e' {
        Some(14)
    } else if c == 'f' {
        Some(15)
    } else {
        None
    }
}

/// A digit character is recovered from its value.
pub proof fn lemma_val_digit_char(c: char)
    requires
        0 <= hex_val(c),
    ensures
        digit_char(hex_val(c)) == c,
{
}

proof fn lemma_subrange_extend(t: Seq<char>, i: int, p: int, q: int, x: Seq<char>, y: Seq<char>)
    requires
        0 <= i <= p <= q <= t.len(),
        t.subrange(i, p) == x,
        t.subrange(p, q) == y,
    ensures
        t.subrange(i, q) == x + y,
{
    assert forall|k: int| 0 <= k < q - i implies t.subrange(i, q)[k] == (x + y)[k] by {
        if k < p - i {
            assert(t.subrange(i, p)[k] == t[i + k]);
        } else {
            assert(t.subrange(p, q)[k - (p - i)] == t[i + k]);
        }
        assert(t.subrange(i, q)[k] == t[i + k]);
    }
    assert(t.subrange(i, q) =~= x + y);
}

/// Whether the literal `pat` stands in `s` at position `i`; `Some` carries
/// the position just past it, and `None` comes exactly when it does not
/// stand there.
fn expect_lit(s: &str, i: usize, pat: &str) -> (r: Option<usize>)
    ensures
        match r {
            Some(j) => j as int == i as int + pat@.len() && matches_at(s@, i as int, pat@),
            None => !matches_at(s@, i as int, pat@),
        },
{
    let n = s.unicode_len();
    let m = pat.unicode_len();
    if m > n || i > n - m {
        return None;
    }
    let mut k: usize = 0;
    while k < m
        invariant
            n == s@.len(),
            m == pat@.len(),
            i + m <= n,
            k <= m,
            forall|q: int| 0 <= q < k ==> s@[i + q] == #[trigger] pat@[q],
        decreases m - k,
    {
        if s.get_char(i + k) != pat.get_char(k) {
            proof {
                if matches_at(s@, i as int, pat@) {
                    let kk = k as int;
                    assert(s@.subrange(i as int, i + pat@.len() as int)[kk] == pat@[kk]);
                    assert(s@[i + k] == pat@[kk]);
                }
            }
            return None;
        }
        k += 1;
    }
    proof {
        assert(s@.subrange(i as int, i + pat@.len() as int) =~= pat@);
    }
    Some(i + m)
}

/// Reads the body of a JSON string from just after the opening quote to
/// just past the closing quote, undoing the canonical escapes.  `None`
/// comes exactly when no canonically escaped body ends at a quote here.
fn parse_string_body(s: &str, i: usize) -> (r: Option<(String, usize)>)
    ensures
        (match r {
            Some(vj) => i <= vj.1 <= s@.len() && s@.subrange(i as int, vj.1 as int)
                == spec_escaped(vj.0@) + seq!['"'],
            None => true,
        }),
        (forall|vv: Seq<char>|
            string_at(s@, i as int, vv) ==> match r {
                Some(vj) => vj.0@ == vv && vj.1 as int == i as int + spec_escaped(vv).len() + 1,
                None => false,
            }),
{
    let n = s.unicode_len();
    if i > n {
        proof {
            assert forall|vv: Seq<char>| string_at(s@, i as int, vv) implies false by {}
        }
        return None;
    }
    let mut v = String::new();
    let mut p: usize = i;
    loop
        invariant
            n == s@.len(),
            i <= p <= n,
            s@.subrange(i as int, p as int) == spec_escaped(v@),
        decreases n - p,
    {
        if p == n {
            proof {
                assert forall|vv: Seq<char>| string_at(s@, i as int, vv) implies false by {
                    lemma_scan_state(s@, i as int, p as int, v@, vv);
                    if v@.len() < vv.len() {
                        lemma_esc_first(vv[v@.len() as int]);
                    }
                }
            }
            return None;
        }
        let c = s.get_char(p);
        if c == '"' {
            proof {
                assert(s@.subrange(p as int, p + 1) =~= seq!['"']);
                lemma_subrange_extend(
                    s@,
                    i as int,
                    p as int,
                    p + 1,
                    spec_escaped(v@),
                    seq!['"'],
                );
                assert forall|vv: Seq<char>| string_at(s@, i as int, vv) implies (v@ == vv && p
                    + 1 == i as int + spec_escaped(vv).len() + 1) by {
                    lemma_scan_state(s@, i as int, p as int, v@, vv);
                    if v@.len() < vv.len() {
                        lemma_esc_first(vv[v@.len() as int]);
                        assert(s@[p as int] == esc_char(vv[v@.len() as int])[0]);
                        assert(false);
                    }
                    assert(v@ == vv.take(vv.len() as int));
                    assert(vv.take(vv.len() as int) =~= vv);
                }
            }
            return Some((v, p + 1));
        }
        let ghost prevv = v@;
        if c == '\\' {
            if n - p < 2 {
                proof {
                    assert forall|vv: Seq<char>| string_at(s@, i as int, vv) implies false by {
                        lemma_scan_state(s@, i as int, p as int, v@, vv);
                        if v@.len() < vv.len() {
                            let b = vv[v@.len() as int];
                            lemma_esc_first(b);
                            assert(s@[p as int] == esc_char(b)[0]);
                            lemma_esc_second(b);
                        }
                    }
                }
                return None;
            }
            let e = s.get_char(p + 1);
            let decoded: char;
            let width: usize;
            if e == '"' {
                decoded = '"';
                width = 2;
            } else if e == '\\' {
                decoded = '\\';
                width = 2;
            } else if e == 'n' {
                decoded = '\n';
                width = 2;
            } else if e == 'r' {
                decoded = '\r';
                width = 2;
            } else if e == 't' {
                decoded = '\t';
                width = 2;
            } else if e == 'u' {
                if n - p < 6 {
                    proof {
                        assert forall|vv: Seq<char>| string_at(s@, i as int, vv) implies false by {
                            lemma_scan_state(s@, i as int, p as int, v@, vv);
                            if v@.len() < vv.len() {
                                let b = vv[v@.len() as int];
                                lemma_esc_first(b);
                                assert(s@[p as int] == esc_char(b)[0]);
                                lemma_esc_second(b);
                                assert(s@[p as int + 1] == esc_char(b)[1]);
                            }
                        }
                    }
                    return None;
                }
                let d2 = s.get_char(p + 2);
                let d3 = s.get_char(p + 3);
                let h1 = s.get_char(p + 4);
                let h2 = s.get_char(p + 5);
                let v1o = hex_val_of(h1);
                let v2o = hex_val_of(h2);
                let well: bool = d2 == '0' && d3 == '0' && v1o.is_some() && v2o.is_some();
                if !well {
                    proof {
                        assert forall|vv: Seq<char>| string_at(s@, i as int, vv) implies false by {
                            lemma_scan_state(s@, i as int, p as int, v@, vv);
                            if v@.len() < vv.len() {
                                let b = vv[v@.len() as int];
                                lemma_esc_first(b);
                                assert(s@[p as int] == esc_char(b)[0]);
                                lemma_esc_second(b);
                                assert(s@[p as int + 1] == esc_char(b)[1]);
                                assert(s@[p as int + 2] == esc_char(b)[2]);
                                assert(s@[p as int + 3] == esc_char(b)[3]);
                                assert(s@[p as int + 4] == esc_char(b)[4]);
                                assert(s@[p as int + 5] == esc_char(b)[5]);
                                lemma_digit_char_val(b as int / 16);
                                lemma_digit_char_val(b as int % 16);
                            }
                        }
                    }
                    return None;
                }
                let v1 = v1o.unwrap();
                let v2 = v2o.unwrap();
                let val: u8 = v1 * 16 + v2;
                if val >= 0x20 || val == 0x09 || val == 0x0a || val == 0x0d {
                    proof {
                        assert forall|vv: Seq<char>| string_at(s@, i as int, vv) implies false by {
                            lemma_scan_state(s@, i as int, p as int, v@, vv);
                            if v@.len() < vv.len() {
                                let b = vv[v@.len() as int];
                                lemma_esc_first(b);
                                assert(s@[p as int] == esc_char(b)[0]);
                                lemma_esc_second(b);
                                assert(s@[p as int + 1] == esc_char(b)[1]);
                                assert(s@[p as int + 4] == esc_char(b)[4]);
                                assert(s@[p as int + 5] == esc_char(b)[5]);
                                lemma_val_digit_char(h1);
                                lemma_val_digit_char(h2);
                                lemma_char_bounds(b);
                                assert((b as int) < 0x20);
                                assert(0 <= (b as int));
                                assert(0 <= (b as int) / 16 && (b as int) / 16 <= 15);
                                assert(0 <= (b as int) % 16 && (b as int) % 16 <= 15);
                                lemma_digit_char_val(b as int / 16);
                                lemma_digit_char_val(b as int % 16);
                                assert(hex_val(h1) == b as int / 16);
                                assert(hex_val(h2) == b as int % 16);
                                assert(b as int == (b as int / 16) * 16 + (b as int % 16));
                                assert(val == b as int);
                            }
                        }
                    }
                    return None;
                }
                decoded = val as char;
                width = 6;
                proof {
                    assert(decoded as int == val as int);
                }
            } else {
                proof {
                    assert forall|vv: Seq<char>| string_at(s@, i as int, vv) implies false by {
                        lemma_scan_state(s@, i as int, p as int, v@, vv);
                        if v@.len() < vv.len() {
                            let b = vv[v@.len() as int];
                            lemma_esc_first(b);
                            assert(s@[p as int] == esc_char(b)[0]);
                            lemma_esc_second(b);
                            assert(s@[p as int + 1] == esc_char(b)[1]);
                        }
                    }
                }
                return None;
            }
            push_char(&mut v, decoded);
            proof {
                assert(v@.drop_last() =~= prevv);
                assert(v@.last() == decoded);
                assert(spec_escaped(v@) == spec_escaped(prevv) + esc_char(decoded));
                if width == 2 {
                    assert(s@.subrange(p as int, p + 2) =~= esc_char(decoded)) by {
                        assert(s@.subrange(p as int, p + 2)[0] == s@[p as int]);
                        assert(s@.subrange(p as int, p + 2)[1] == s@[p as int + 1]);
                    }
                    lemma_subrange_extend(
                        s@,
                        i as int,
                        p as int,
                        p + 2,
                        spec_escaped(prevv),
                        esc_char(decoded),
                    );
                } else {
                    assert((decoded as int) < 0x20);
                    assert(decoded != '\n' && decoded != '\r' && decoded != '\t');
                    lemma_val_digit_char(s@[p as int + 4]);
                    lemma_val_digit_char(s@[p as int + 5]);
                    assert(esc_char(decoded) == seq![
                        '\\',
                        'u',
                        '0',
                        '0',
                        digit_char(decoded as int / 16),
                        digit_char(decoded as int % 16),
                    ]);
                    assert(s@.subrange(p as int, p + 6) =~= esc_char(decoded)) by {
                        assert(forall|q: int|
                            0 <= q < 6 ==> #[trigger] s@.subrange(p as int, p + 6)[q] == s@[
                                p as int + q
                            ]);
                        assert(decoded as int / 16 == hex_val(s@[p as int + 4]));
                        assert(decoded as int % 16 == hex_val(s@[p as int + 5]));
                    }
                    lemma_subrange_extend(
                        s@,
                        i as int,
                        p as int,
                        p + 6,
                        spec_escaped(prevv),
                        esc_char(decoded),
                    );
                }
            }
            p += width;
        } else {
            if (c as u32) < 0x20 {
                proof {
                    assert forall|vv: Seq<char>| string_at(s@, i as int, vv) implies false by {
                        lemma_scan_state(s@, i as int, p as int, v@, vv);
                        if v@.len() < vv.len() {
                            let b = vv[v@.len() as int];
                            lemma_esc_first(b);
                            assert(s@[p as int] == esc_char(b)[0]);
                        }
                    }
                }
                return None;
            }
            push_char(&mut v, c);
            proof {
                assert(v@.drop_last() =~= prevv);
                assert(v@.last() == c);
                assert(spec_escaped(v@) == spec_escaped(prevv) + esc_char(c));
                assert(esc_char(c) == seq![c]);
                assert(s@.subrange(p as int, p + 1) =~= esc_char(c));
                lemma_subrange_extend(
                    s@,
                    i as int,
                    p as int,
                    p + 1,
                    spec_escaped(prevv),
                    esc_char(c),
                );
            }
            p += 1;
        }
    }
}

/// The nineteen characters of a formatted timestamp, one by one.
proof fn lemma_fmt_ts_chars(t: Timestamp)
    ensures
        spec_fmt_ts(t).len() == 19,
        spec_fmt_ts(t)[0] == digit_char(t.year as int / 1000 % 10),
        spec_fmt_ts(t)[1] == digit_char(t.year as int / 100 % 10),
        spec_fmt_ts(t)[2] == digit_char(t.year as int / 10 % 10),
        spec_fmt_ts(t)[3] == digit_char(t.year as int % 10),
        spec_fmt_ts(t)[4] == '-',
        spec_fmt_ts(t)[5] == digit_char(t.month as int / 10 % 10),
        spec_fmt_ts(t)[6] == digit_char(t.month as int % 10),
        spec_fmt_ts(t)[7] == '-',
        spec_fmt_ts(t)[8] == digit_char(t.day as int / 10 % 10),
        spec_fmt_ts(t)[9] == digit_char(t.day as int % 10),
        spec_fmt_ts(t)[10] == 'T',
        spec_fmt_ts(t)[11] == digit_char(t.hour as int / 10 % 10),
        spec_fmt_ts(t)[12] == digit_char(t.hour as int % 10),
        spec_fmt_ts(t)[13] == ':',
        spec_fmt_ts(t)[14] == digit_char(t.minute as int / 10 % 10),
        spec_fmt_ts(t)[15] == digit_char(t.minute as int % 10),
        spec_fmt_ts(t)[16] == ':',
        spec_fmt_ts(t)[17] == digit_char(t.second as int / 10 % 10),
        spec_fmt_ts(t)[18] == digit_char(t.second as int % 10),
{
}

/// All nineteen characters of a timestamp standing at `i`.
proof fn lemma_ts_at_chars(sq: Seq<char>, i: int, t: Timestamp)
    requires
        matches_at(sq, i, spec_fmt_ts(t)),
    ensures
        i + 19 <= sq.len(),
        sq[i] == digit_char(t.year as int / 1000 % 10),
        sq[i + 1] == digit_char(t.year as int / 100 % 10),
        sq[i + 2] == digit_char(t.year as int / 10 % 10),
        sq[i + 3] == digit_char(t.year as int % 10),
        sq[i + 4] == '-',
        sq[i + 5] == digit_char(t.month as int / 10 % 10),
        sq[i + 6] == digit_char(t.month as int % 10),
        sq[i + 7] == '-',
        sq[i + 8] == digit_char(t.day as int / 10 % 10),
        sq[i + 9] == digit_char(t.day as int % 10),
        sq[i + 10] == 'T',
        sq[i + 11] == digit_char(t.hour as int / 10 % 10),
        sq[i + 12] == digit_char(t.hour as int % 10),
        sq[i + 13] == ':',
        sq[i + 14] == digit_char(t.minute as int / 10 % 10),
        sq[i + 15] == digit_char(t.minute as int % 10),
        sq[i + 16] == ':',
        sq[i + 17] == digit_char(t.second as int / 10 % 10),
        sq[i + 18] == digit_char(t.second as int % 10),
{
    lemma_fmt_ts_chars(t);
    assert(forall|k: int|
        0 <= k < 19 ==> #[trigger] sq.subrange(i, i + 19)[k] == sq[i + k]);
}

/// A two-digit rendering determines its value.
proof fn lemma_two_digit_value(n: int)
    requires
        0 <= n <= 99,
    ensures
        (n / 10 % 10) * 10 + n % 10 == n,
{
    assert((n / 10 % 10) * 10 + n % 10 == n) by (nonlinear_arith)
        requires
            0 <= n <= 99,
    ;
}

/// A four-digit rendering determines its value.
proof fn lemma_four_digit_value(n: int)
    requires
        0 <= n <= 9999,
    ensures
        (n / 1000 % 10) * 1000 + (n / 100 % 10) * 100 + (n / 10 % 10) * 10 + n % 10 == n,
{
    assert((n / 1000 % 10) * 1000 + (n / 100 % 10) * 100 + (n / 10 % 10) * 10 + n % 10 == n)
        by (nonlinear_arith)
        requires
            0 <= n <= 9999,
    ;
}

/// Digits compose to the two-digit value they render.
proof fn lemma_compose_two(a: int, b: int, y: int)
    requires
        0 <= a <= 9,
        0 <= b <= 9,
        y == a * 10 + b,
    ensures
        y / 10 % 10 == a,
        y % 10 == b,
{
    vstd::arithmetic::div_mod::lemma_fundamental_div_mod_converse(y, 10, a, b);
    vstd::arithmetic::div_mod::lemma_fundamental_div_mod_converse(a, 10, 0, a);
}

/// Digits compose to the four-digit value they render.
proof fn lemma_compose_four(a: int, b: int, c: int, d: int, y: int)
    requires
        0 <= a <= 9,
        0 <= b <= 9,
        0 <= c <= 9,
        0 <= d <= 9,
        y == ((a * 10 + b) * 10 + c) * 10 + d,
    ensures
        y / 1000 % 10 == a,
        y / 100 % 10 == b,
        y / 10 % 10 == c,
        y % 10 == d,
{
    assert(y == a * 1000 + (b * 100 + c * 10 + d));
    vstd::arithmetic::div_mod::lemma_fundamental_div_mod_converse(y, 1000, a, b * 100 + c * 10 + d);
    vstd::arithmetic::div_mod::lemma_fundamental_div_mod_converse(a, 10, 0, a);
    assert(y == (a * 10 + b) * 100 + (c * 10 + d));
    vstd::arithmetic::div_mod::lemma_fundamental_div_mod_converse(y, 100, a * 10 + b, c * 10 + d);
    vstd::arithmetic::div_mod::lemma_fundamental_div_mod_converse(a * 10 + b, 10, a, b);
    vstd::arithmetic::div_mod::lemma_fundamental_div_mod_converse(y, 10, (a * 10 + b) * 10 + c, d);
    vstd::arithmetic::div_mod::lemma_fundamental_div_mod_converse((a * 10 + b) * 10 + c, 10, a * 10 + b, c);
}

/// Reads a canonical `YYYY-MM-DDTHH:MM:SS` timestamp with in-range calendar
/// fields; `None` comes exactly when none stands at `i`.
#[verifier::rlimit(50)]
fn parse_ts(s: &str, i: usize) -> (r: Option<Timestamp>)
    ensures
        (match r {
            Some(t) => t.wf() && matches_at(s@, i as int, spec_fmt_ts(t)),
            None => true,
        }),
        (forall|t: Timestamp|
            t.wf() && matches_at(s@, i as int, spec_fmt_ts(t)) ==> r == Some(t)),
{
    let n = s.unicode_len();
    if i > n || n - i < 19 {
        proof {
            assert forall|t: Timestamp|
                t.wf() && matches_at(s@, i as int, spec_fmt_ts(t)) implies false by {
                lemma_fmt_ts_chars(t);
            }
        }
        return None;
    }
    let c0 = s.get_char(i);
    let c1 = s.get_char(i + 1);
    let c2 = s.get_char(i + 2);
    let c3 = s.get_char(i + 3);
    let c4 = s.get_char(i + 4);
    let c5 = s.get_char(i + 5);
    let c6 = s.get_char(i + 6);
    let c7 = s.get_char(i + 7);
    let c8 = s.get_char(i + 8);
    let c9 = s.get_char(i + 9);
    let c10 = s.get_char(i + 10);
    let c11 = s.get_char(i + 11);
    let c12 = s.get_char(i + 12);
    let c13 = s.get_char(i + 13);
    let c14 = s.get_char(i + 14);
    let c15 = s.get_char(i + 15);
    let c16 = s.get_char(i + 16);
    let c17 = s.get_char(i + 17);
    let c18 = s.get_char(i + 18);
    let shape: bool = c4 == '-' && c7 == '-' && c10 == 'T' && c13 == ':' && c16 == ':';
    let y0o = decimal_val_of(c0);
    let y1o = decimal_val_of(c1);
    let y2o = decimal_val_of(c2);
    let y3o = decimal_val_of(c3);
    let m0o = decimal_val_of(c5);
    let m1o = decimal_val_of(c6);
    let d0o = decimal_val_of(c8);
    let d1o = decimal_val_of(c9);
    let h0o = decimal_val_of(c11);
    let h1o = decimal_val_of(c12);
    let n0o = decimal_val_of(c14);
    let n1o = decimal_val_of(c15);
    let s0o = decimal_val_of(c17);
    let s1o = decimal_val_of(c18);
    let digits: bool = y0o.is_some() && y1o.is_some() && y2o.is_some() && y3o.is_some()
        && m0o.is_some() && m1o.is_some() && d0o.is_some() && d1o.is_some() && h0o.is_some()
        && h1o.is_some() && n0o.is_some() && n1o.is_some() && s0o.is_some() && s1o.is_some();
    if !shape || !digits {
        proof {
            assert forall|t: Timestamp|
                t.wf() && matches_at(s@, i as int, spec_fmt_ts(t)) implies false by {
                lemma_ts_at_chars(s@, i as int, t);
                lemma_digit_char_val(t.year as int / 1000 % 10);
                lemma_digit_char_val(t.year as int / 100 % 10);
                lemma_digit_char_val(t.year as int / 10 % 10);
                lemma_digit_char_val(t.year as int % 10);
                lemma_digit_char_val(t.month as int / 10 % 10);
                lemma_digit_char_val(t.month as int % 10);
                lemma_digit_char_val(t.day as int / 10 % 10);
                lemma_digit_char_val(t.day as int % 10);
                lemma_digit_char_val(t.hour as int / 10 % 10);
                lemma_digit_char_val(t.hour as int % 10);
                lemma_digit_char_val(t.minute as int / 10 % 10);
                lemma_digit_char_val(t.minute as int % 10);
                lemma_digit_char_val(t.second as int / 10 % 10);
                lemma_digit_char_val(t.second as int % 10);
            }
        }
        return None;
    }
    let year: u32 = ((y0o.unwrap() * 10 + y1o.unwrap()) * 10 + y2o.unwrap()) * 10 + y3o.unwrap();
    let month: u32 = m0o.unwrap() * 10 + m1o.unwrap();
    let day: u32 = d0o.unwrap() * 10 + d1o.unwrap();
    let hour: u32 = h0o.unwrap() * 10 + h1o.unwrap();
    let minute: u32 = n0o.unwrap() * 10 + n1o.unwrap();
    let second: u32 = s0o.unwrap() * 10 + s1o.unwrap();
    let ranges: bool = 1 <= month && month <= 12 && 1 <= day && day <= 31 && hour <= 23
        && minute <= 59 && second <= 59;
    let ts = Timestamp { year, month, day, hour, minute, second };
    proof {
        // whatever well-formed timestamp stands here, it is this one
        assert forall|t: Timestamp|
            t.wf() && matches_at(s@, i as int, spec_fmt_ts(t)) implies t == ts by {
            lemma_ts_at_chars(s@, i as int, t);
            lemma_val_digit_char(c0);
            lemma_val_digit_char(c1);
            lemma_val_digit_char(c2);
            lemma_val_digit_char(c3);
            lemma_val_digit_char(c5);
            lemma_val_digit_char(c6);
            lemma_val_digit_char(c8);
            lemma_val_digit_char(c9);
            lemma_val_digit_char(c11);
            lemma_val_digit_char(c12);
            lemma_val_digit_char(c14);
            lemma_val_digit_char(c15);
            lemma_val_digit_char(c17);
            lemma_val_digit_char(c18);
            lemma_digit_char_val(t.year as int / 1000 % 10);
            lemma_digit_char_val(t.year as int / 100 % 10);
            lemma_digit_char_val(t.year as int / 10 % 10);
            lemma_digit_char_val(t.year as int % 10);
            lemma_digit_char_val(t.month as int / 10 % 10);
            lemma_digit_char_val(t.month as int % 10);
            lemma_digit_char_val(t.day as int / 10 % 10);
            lemma_digit_char_val(t.day as int % 10);
            lemma_digit_char_val(t.hour as int / 10 % 10);
            lemma_digit_char_val(t.hour as int % 10);
            lemma_digit_char_val(t.minute as int / 10 % 10);
            lemma_digit_char_val(t.minute as int % 10);
            lemma_digit_char_val(t.second as int / 10 % 10);
            lemma_digit_char_val(t.second as int % 10);
            lemma_four_digit_value(t.year as int);
            lemma_two_digit_value(t.month as int);
            lemma_two_digit_value(t.day as int);
            lemma_two_digit_value(t.hour as int);
            lemma_two_digit_value(t.minute as int);
            lemma_two_digit_value(t.second as int);
        }
    }
    if !ranges {
        return None;
    }
    proof {
        // the nineteen characters are exactly this timestamp's rendering
        lemma_compose_four(hex_val(c0), hex_val(c1), hex_val(c2), hex_val(c3), year as int);
        lemma_compose_two(hex_val(c5), hex_val(c6), month as int);
        lemma_compose_two(hex_val(c8), hex_val(c9), day as int);
        lemma_compose_two(hex_val(c11), hex_val(c12), hour as int);
        lemma_compose_two(hex_val(c14), hex_val(c15), minute as int);
        lemma_compose_two(hex_val(c17), hex_val(c18), second as int);
        lemma_fmt_ts_chars(ts);
        lemma_val_digit_char(c0);
        lemma_val_digit_char(c1);
        lemma_val_digit_char(c2);
        lemma_val_digit_char(c3);
        lemma_val_digit_char(c5);
        lemma_val_digit_char(c6);
        lemma_val_digit_char(c8);
        lemma_val_digit_char(c9);
        lemma_val_digit_char(c11);
        lemma_val_digit_char(c12);
        lemma_val_digit_char(c14);
        lemma_val_digit_char(c15);
        lemma_val_digit_char(c17);
        lemma_val_digit_char(c18);
        assert(s@.subrange(i as int, i + 19) =~= spec_fmt_ts(ts));
    }
    Some(ts)
}

fn push_chat_obj(out: &mut String, m: &ChatMessages)
    ensures
        final(out)@ == old(out)@ + spec_chat_obj(m@),
{
    out.append("{\"message\":");
    push_json_string(out, m.message.as_str());
    out.append(",\"author\":");
    push_json_string(out, m.author.as_str());
    out.append(",\"created_at\":\"");
    push_timestamp(out, m.created_at);
    out.append("\"}");
    proof {
        assert(out@ =~= old(out)@ + spec_chat_obj(m@));
    }
}

fn push_users_array(out: &mut String, users: &Vec<String>)
    ensures
        final(out)@ == old(out)@ + spec_users_array(users.deep_view()),
{
    out.append("[");
    let ghost dv = users.deep_view();
    let mut i: usize = 0;
    while i < users.len()
        invariant
            i <= users@.len(),
            dv == users.deep_view(),
            dv.len() == users@.len(),
            forall|k: int| 0 <= k < dv.len() ==> dv[k] == users@[k]@,
            out@ == old(out)@ + "["@ + spec_users_items(dv.take(i as int)),
        decreases users@.len() - i,
    {
        if i > 0 {
            out.append(",");
        }
        push_json_string(out, users[i].as_str());
        proof {
            if i == 0 {
                assert(dv.take(1)[0] == dv[0]);
                assert(spec_users_items(dv.take(1)) == spec_json_string(dv[0]));
                assert(out@ =~= old(out)@ + "["@ + spec_users_items(dv.take(1)));
            } else {
                assert(dv.take(i + 1).drop_last() =~= dv.take(i as int));
                assert(dv.take(i + 1).last() == dv[i as int]);
                assert(spec_users_items(dv.take(i + 1)) == spec_users_items(dv.take(i as int))
                    + ","@ + spec_json_string(dv[i as int]));
                assert(out@ =~= old(out)@ + "["@ + spec_users_items(dv.take(i + 1)));
            }
        }
        i += 1;
    }
    out.append("]");
    proof {
        assert(dv.take(users@.len() as int) =~= dv);
        assert(out@ =~= old(out)@ + spec_users_array(dv));
    }
}

/// Encodes an envelope to its canonical frame.
pub fn encode_message(m: &WebSocketMessage) -> (r: String)
    ensures
        r@ == spec_encode(m@),
{
    let mut out = String::new();
    out.append("{\"message_type\":\"");
    match m.message_type {
        WebSocketMessageType::NewMessage => out.append("NewMessage"),
        WebSocketMessageType::UsersList => out.append("UsersList"),
        WebSocketMessageType::UsernameChange => out.append("UsernameChange"),
    }
    out.append("\",\"message\":");
    match &m.message {
        None => out.append("null"),
        Some(c) => push_chat_obj(&mut out, c),
    }
    out.append(",\"users\":");
    match &m.users {
        None => out.append("null"),
        Some(us) => push_users_array(&mut out, us),
    }
    out.append(",\"username\":");
    match &m.username {
        None => out.append("null"),
        Some(u) => push_json_string(&mut out, u.as_str()),
    }
    out.append("}");
    proof {
        assert(out@ =~= spec_encode(m@));
    }
    out
}

// ---------------------------------------------------------------------------
// Decoding: the two canonical client frames
// ---------------------------------------------------------------------------

/// Everything of a canonical chat post up to the opening quote of the
/// message body.
pub open spec fn chat_head() -> Seq<char> {
    "{\"message_type\":\"NewMessage\",\"message\":{\"message\":\""@
}

/// Between the message body and the opening quote of the author.
pub open spec fn chat_mid_author() -> Seq<char> {
    ",\"author\":\""@
}

/// Between the author and the timestamp.
pub open spec fn chat_mid_created() -> Seq<char> {
    ",\"created_at\":\""@
}

/// Everything of a canonical chat post after the timestamp.
pub open spec fn chat_tail() -> Seq<char> {
    "\"},\"users\":null,\"username\":null}"@
}

/// Everything of a canonical rename request up to the opening quote of the
/// requested name.
pub open spec fn rename_head() -> Seq<char> {
    "{\"message_type\":\"UsernameChange\",\"message\":null,\"users\":null,\"username\":\""@
}

/// Everything of a canonical rename request after the requested name.
pub open spec fn rename_tail() -> Seq<char> {
    "}"@
}

/// The canonical chat-post frame, laid out as the decoder walks it.
pub open spec fn chat_frame(cm: ChatMessagesView) -> Seq<char> {
    chat_head() + ((spec_escaped(cm.message) + seq!['"']) + (chat_mid_author() + ((spec_escaped(
        cm.author,
    ) + seq!['"']) + (chat_mid_created() + (spec_fmt_ts(cm.created_at) + chat_tail())))))
}

/// The canonical rename-request frame, laid out as the decoder walks it.
pub open spec fn rename_frame(u: Seq<char>) -> Seq<char> {
    rename_head() + ((spec_escaped(u) + seq!['"']) + rename_tail())
}

proof fn lemma_matches_self(t: Seq<char>, x: Seq<char>)
    requires
        t == x,
    ensures
        matches_at(t, 0, x),
{
    assert(t.subrange(0, x.len() as int) =~= x);
}

/// A chat-post envelope encodes to its frame.
#[verifier::rlimit(100)]
proof fn lemma_chat_encode(mv: WebSocketMessageView, cm: ChatMessagesView)
    requires
        mv.message_type is NewMessage,
        mv.message == Some(cm),
        mv.users is None,
        mv.username is None,
    ensures
        spec_encode(mv) == chat_frame(cm),
{
    reveal_strlit("{\"message_type\":\"");
    reveal_strlit("NewMessage");
    reveal_strlit("UsernameChange");
    reveal_strlit("\",\"message\":");
    reveal_strlit("{\"message\":");
    reveal_strlit(",\"author\":");
    reveal_strlit(",\"created_at\":\"");
    reveal_strlit("\"}");
    reveal_strlit(",\"users\":");
    reveal_strlit(",\"username\":");
    reveal_strlit("null");
    reveal_strlit("}");
    reveal_strlit("\"");
    reveal_strlit("{\"message_type\":\"NewMessage\",\"message\":{\"message\":\"");
    reveal_strlit(",\"author\":\"");
    reveal_strlit("{\"message_type\":\"UsernameChange\",\"message\":null,\"users\":null,\"username\":\"");
    reveal_strlit("\"},\"users\":null,\"username\":null}");
    assert(chat_head() =~= "{\"message_type\":\""@ + "NewMessage"@ + "\",\"message\":"@
        + "{\"message\":"@ + seq!['"']);
    assert(chat_mid_author() =~= ",\"author\":"@ + seq!['"']);
    assert(chat_tail() =~= "\"}"@ + ",\"users\":"@ + "null"@ + ",\"username\":"@ + "null"@
        + "}"@);
    assert(spec_encode(mv) =~= chat_frame(cm));
}

/// A rename-request envelope encodes to its frame.
#[verifier::rlimit(100)]
proof fn lemma_rename_encode(mv: WebSocketMessageView, u: Seq<char>)
    requires
        mv.message_type is UsernameChange,
        mv.message is None,
        mv.users is None,
        mv.username == Some(u),
    ensures
        spec_encode(mv) == rename_frame(u),
{
    reveal_strlit("{\"message_type\":\"");
    reveal_strlit("NewMessage");
    reveal_strlit("UsernameChange");
    reveal_strlit("\",\"message\":");
    reveal_strlit("{\"message\":");
    reveal_strlit(",\"author\":");
    reveal_strlit(",\"created_at\":\"");
    reveal_strlit("\"}");
    reveal_strlit(",\"users\":");
    reveal_strlit(",\"username\":");
    reveal_strlit("null");
    reveal_strlit("}");
    reveal_strlit("\"");
    reveal_strlit("{\"message_type\":\"NewMessage\",\"message\":{\"message\":\"");
    reveal_strlit(",\"author\":\"");
    reveal_strlit("{\"message_type\":\"UsernameChange\",\"message\":null,\"users\":null,\"username\":\"");
    reveal_strlit("\"},\"users\":null,\"username\":null}");
    assert(rename_head() =~= "{\"message_type\":\""@ + "UsernameChange"@ + "\",\"message\":"@
        + "null"@ + ",\"users\":"@ + "null"@ + ",\"username\":"@ + seq!['"']);
    assert(rename_tail() =~= "}"@);
    assert(spec_encode(mv) =~= rename_frame(u));
}

/// The pieces of a chat-post frame, each at its place.
proof fn lemma_chat_frame_layout(t: Seq<char>, cm: ChatMessagesView)
    requires
        t == chat_frame(cm),
    ensures
        matches_at(t, 0, chat_head()),
        string_at(t, chat_head().len() as int, cm.message),
        matches_at(
            t,
            chat_head().len() as int + spec_escaped(cm.message).len() + 1,
            chat_mid_author(),
        ),
        string_at(
            t,
            chat_head().len() as int + spec_escaped(cm.message).len() + 1 + chat_mid_author().len(),
            cm.author,
        ),
        matches_at(
            t,
            chat_head().len() as int + spec_escaped(cm.message).len() + 1 + chat_mid_author().len()
                + spec_escaped(cm.author).len() + 1,
            chat_mid_created(),
        ),
        matches_at(
            t,
            chat_head().len() as int + spec_escaped(cm.message).len() + 1 + chat_mid_author().len()
                + spec_escaped(cm.author).len() + 1 + chat_mid_created().len(),
            spec_fmt_ts(cm.created_at),
        ),
        matches_at(
            t,
            chat_head().len() as int + spec_escaped(cm.message).len() + 1 + chat_mid_author().len()
                + spec_escaped(cm.author).len() + 1 + chat_mid_created().len() + 19,
            chat_tail(),
        ),
        t.len() == chat_head().len() as int + spec_escaped(cm.message).len() + 1 + chat_mid_author().len()
            + spec_escaped(cm.author).len() + 1 + chat_mid_created().len() + 19
            + chat_tail().len(),
{
    lemma_fmt_ts_chars(cm.created_at);
    lemma_matches_self(t, chat_frame(cm));
    let r1 = (spec_escaped(cm.message) + seq!['"']) + (chat_mid_author() + ((spec_escaped(
        cm.author,
    ) + seq!['"']) + (chat_mid_created() + (spec_fmt_ts(cm.created_at) + chat_tail()))));
    lemma_matches_split(t, 0, chat_head(), r1);
    let o1 = chat_head().len() as int;
    let r2 = chat_mid_author() + ((spec_escaped(cm.author) + seq!['"']) + (chat_mid_created() + (
    spec_fmt_ts(cm.created_at) + chat_tail())));
    lemma_matches_split(t, o1, spec_escaped(cm.message) + seq!['"'], r2);
    let o2 = o1 + spec_escaped(cm.message).len() + 1;
    let r3 = (spec_escaped(cm.author) + seq!['"']) + (chat_mid_created() + (spec_fmt_ts(
        cm.created_at,
    ) + chat_tail()));
    lemma_matches_split(t, o2, chat_mid_author(), r3);
    let o3 = o2 + chat_mid_author().len();
    let r4 = chat_mid_created() + (spec_fmt_ts(cm.created_at) + chat_tail());
    lemma_matches_split(t, o3, spec_escaped(cm.author) + seq!['"'], r4);
    let o4 = o3 + spec_escaped(cm.author).len() + 1;
    let r5 = spec_fmt_ts(cm.created_at) + chat_tail();
    lemma_matches_split(t, o4, chat_mid_created(), r5);
    let o5 = o4 + chat_mid_created().len();
    lemma_matches_split(t, o5, spec_fmt_ts(cm.created_at), chat_tail());
}

/// The pieces of a rename-request frame, each at its place.
proof fn lemma_rename_frame_layout(t: Seq<char>, u: Seq<char>)
    requires
        t == rename_frame(u),
    ensures
        matches_at(t, 0, rename_head()),
        string_at(t, rename_head().len() as int, u),
        matches_at(t, rename_head().len() as int + spec_escaped(u).len() + 1, rename_tail()),
        t.len() == rename_head().len() as int + spec_escaped(u).len() + 1 + rename_tail().len(),
{
    lemma_matches_self(t, rename_frame(u));
    let r1 = (spec_escaped(u) + seq!['"']) + rename_tail();
    lemma_matches_split(t, 0, rename_head(), r1);
    let o1 = rename_head().len() as int;
    lemma_matches_split(t, o1, spec_escaped(u) + seq!['"'], rename_tail());
}

/// Decodes a canonical chat post, and nothing else.
#[verifier::rlimit(50)]
fn try_chat(s: &str) -> (r: Option<WebSocketMessage>)
    ensures
        (match r {
            Some(m) => m@.message_type is NewMessage && wf_client(m@) && s@ == spec_encode(m@),
            None => true,
        }),
        (forall|mv: WebSocketMessageView|
            wf_client(mv) && (mv.message_type is NewMessage) && s@ == spec_encode(mv)
                ==> match r {
                Some(m) => m@ == mv,
                None => false,
            }),
{
    let n = s.unicode_len();
    let i1 = match expect_lit(s, 0, "{\"message_type\":\"NewMessage\",\"message\":{\"message\":\"") {
        Some(j) => j,
        None => {
            proof {
                assert forall|mv: WebSocketMessageView|
                    wf_client(mv) && (mv.message_type is NewMessage) && s@ == spec_encode(
                        mv,
                    ) implies false by {
                    match mv.message {
                        Some(cm) => {
                            lemma_chat_encode(mv, cm);
                            lemma_chat_frame_layout(s@, cm);
                        },
                        None => {},
                    }
                }
            }
            return None;
        },
    };
    let msg_i2 = match parse_string_body(s, i1) {
        Some(p) => p,
        None => {
            proof {
                assert forall|mv: WebSocketMessageView|
                    wf_client(mv) && (mv.message_type is NewMessage) && s@ == spec_encode(
                        mv,
                    ) implies false by {
                    match mv.message {
                        Some(cm) => {
                            lemma_chat_encode(mv, cm);
                            lemma_chat_frame_layout(s@, cm);
                            assert(string_at(s@, i1 as int, cm.message));
                        },
                        None => {},
                    }
                }
            }
            return None;
        },
    };
    let msg = msg_i2.0;
    let i2 = msg_i2.1;
    let i3 = match expect_lit(s, i2, ",\"author\":\"") {
        Some(j) => j,
        None => {
            proof {
                assert forall|mv: WebSocketMessageView|
                    wf_client(mv) && (mv.message_type is NewMessage) && s@ == spec_encode(
                        mv,
                    ) implies false by {
                    match mv.message {
                        Some(cm) => {
                            lemma_chat_encode(mv, cm);
                            lemma_chat_frame_layout(s@, cm);
                            assert(string_at(s@, i1 as int, cm.message));
                            assert(matches_at(s@, i2 as int, chat_mid_author()));
                        },
                        None => {},
                    }
                }
            }
            return None;
        },
    };
    let author_i4 = match parse_string_body(s, i3) {
        Some(p) => p,
        None => {
            proof {
                assert forall|mv: WebSocketMessageView|
                    wf_client(mv) && (mv.message_type is NewMessage) && s@ == spec_encode(
                        mv,
                    ) implies false by {
                    match mv.message {
                        Some(cm) => {
                            lemma_chat_encode(mv, cm);
                            lemma_chat_frame_layout(s@, cm);
                            assert(string_at(s@, i1 as int, cm.message));
                            assert(string_at(s@, i3 as int, cm.author));
                        },
                        None => {},
                    }
                }
            }
            return None;
        },
    };
    let author = author_i4.0;
    let i4 = author_i4.1;
    let i5 = match expect_lit(s, i4, ",\"created_at\":\"") {
        Some(j) => j,
        None => {
            proof {
                assert forall|mv: WebSocketMessageView|
                    wf_client(mv) && (mv.message_type is NewMessage) && s@ == spec_encode(
                        mv,
                    ) implies false by {
                    match mv.message {
                        Some(cm) => {
                            lemma_chat_encode(mv, cm);
                            lemma_chat_frame_layout(s@, cm);
                            assert(string_at(s@, i1 as int, cm.message));
                            assert(string_at(s@, i3 as int, cm.author));
                            assert(matches_at(s@, i4 as int, chat_mid_created()));
                        },
                        None => {},
                    }
                }
            }
            return None;
        },
    };
    let ts = match parse_ts(s, i5) {
        Some(t) => t,
        None => {
            proof {
                assert forall|mv: WebSocketMessageView|
                    wf_client(mv) && (mv.message_type is NewMessage) && s@ == spec_encode(
                        mv,
                    ) implies false by {
                    match mv.message {
                        Some(cm) => {
                            lemma_chat_encode(mv, cm);
                            lemma_chat_frame_layout(s@, cm);
                            assert(string_at(s@, i1 as int, cm.message));
                            assert(string_at(s@, i3 as int, cm.author));
                            assert(matches_at(s@, i5 as int, spec_fmt_ts(cm.created_at)));
                        },
                        None => {},
                    }
                }
            }
            return None;
        },
    };
    let i6 = i5 + 19;
    let i7 = match expect_lit(s, i6, "\"},\"users\":null,\"username\":null}") {
        Some(j) => j,
        None => {
            proof {
                assert forall|mv: WebSocketMessageView|
                    wf_client(mv) && (mv.message_type is NewMessage) && s@ == spec_encode(
                        mv,
                    ) implies false by {
                    match mv.message {
                        Some(cm) => {
                            lemma_chat_encode(mv, cm);
                            lemma_chat_frame_layout(s@, cm);
                            assert(string_at(s@, i1 as int, cm.message));
                            assert(string_at(s@, i3 as int, cm.author));
                            assert(matches_at(s@, i5 as int, spec_fmt_ts(cm.created_at)));
                            assert(i5 + 19 == chat_head().len() as int + spec_escaped(cm.message).len()
                                + 1 + chat_mid_author().len() + spec_escaped(cm.author).len() + 1
                                + chat_mid_created().len() + 19);
                            assert(matches_at(s@, i6 as int, chat_tail()));
                        },
                        None => {},
                    }
                }
            }
            return None;
        },
    };
    if i7 != n {
        proof {
            assert forall|mv: WebSocketMessageView|
                wf_client(mv) && (mv.message_type is NewMessage) && s@ == spec_encode(
                    mv,
                ) implies false by {
                match mv.message {
                    Some(cm) => {
                        lemma_chat_encode(mv, cm);
                        lemma_chat_frame_layout(s@, cm);
                        assert(string_at(s@, i1 as int, cm.message));
                        assert(string_at(s@, i3 as int, cm.author));
                    },
                    None => {},
                }
            }
        }
        return None;
    }
    let m = WebSocketMessage {
        message_type: WebSocketMessageType::NewMessage,
        message: Some(ChatMessages { message: msg, author, created_at: ts }),
        users: None,
        username: None,
    };
    proof {
        let cmv = ChatMessagesView { message: m.message->Some_0.message@, author: m.message->Some_0.author@, created_at: ts };
        assert(m@.message == Some(cmv));
        // the consumed pieces assemble to the whole frame
        lemma_subrange_extend(
            s@,
            i5 as int,
            i6 as int,
            i7 as int,
            spec_fmt_ts(ts),
            chat_tail(),
        );
        lemma_subrange_extend(
            s@,
            i4 as int,
            i5 as int,
            i7 as int,
            chat_mid_created(),
            spec_fmt_ts(ts) + chat_tail(),
        );
        lemma_subrange_extend(
            s@,
            i3 as int,
            i4 as int,
            i7 as int,
            spec_escaped(cmv.author) + seq!['"'],
            chat_mid_created() + (spec_fmt_ts(ts) + chat_tail()),
        );
        lemma_subrange_extend(
            s@,
            i2 as int,
            i3 as int,
            i7 as int,
            chat_mid_author(),
            (spec_escaped(cmv.author) + seq!['"']) + (chat_mid_created() + (spec_fmt_ts(ts)
                + chat_tail())),
        );
        lemma_subrange_extend(
            s@,
            i1 as int,
            i2 as int,
            i7 as int,
            spec_escaped(cmv.message) + seq!['"'],
            chat_mid_author() + ((spec_escaped(cmv.author) + seq!['"']) + (chat_mid_created() + (
            spec_fmt_ts(ts) + chat_tail()))),
        );
        lemma_subrange_extend(
            s@,
            0,
            i1 as int,
            i7 as int,
            chat_head(),
            (spec_escaped(cmv.message) + seq!['"']) + (chat_mid_author() + ((spec_escaped(
                cmv.author,
            ) + seq!['"']) + (chat_mid_created() + (spec_fmt_ts(ts) + chat_tail())))),
        );
        assert(s@.subrange(0, n as int) =~= s@);
        assert(s@ == chat_frame(cmv));
        lemma_chat_encode(m@, cmv);
        // and whatever chat envelope stands here is this one
        assert forall|mv: WebSocketMessageView|
            wf_client(mv) && (mv.message_type is NewMessage) && s@ == spec_encode(mv) implies m@
            == mv by {
            match mv.message {
                Some(cm) => {
                    lemma_chat_encode(mv, cm);
                    lemma_chat_frame_layout(s@, cm);
                    assert(string_at(s@, i1 as int, cm.message));
                    assert(msg_i2.0@ == cm.message);
                    assert(string_at(s@, i3 as int, cm.author));
                    assert(author_i4.0@ == cm.author);
                    assert(matches_at(s@, i5 as int, spec_fmt_ts(cm.created_at)));
                    assert(ts == cm.created_at);
                    assert(cmv == cm);
                },
                None => {},
            }
        }
    }
    Some(m)
}

/// Decodes a canonical rename request, and nothing else.
#[verifier::rlimit(50)]
fn try_rename(s: &str) -> (r: Option<WebSocketMessage>)
    ensures
        (match r {
            Some(m) => m@.message_type is UsernameChange && wf_client(m@) && s@ == spec_encode(
                m@,
            ),
            None => true,
        }),
        (forall|mv: WebSocketMessageView|
            wf_client(mv) && (mv.message_type is UsernameChange) && s@ == spec_encode(mv)
                ==> match r {
                Some(m) => m@ == mv,
                None => false,
            }),
{
    let n = s.unicode_len();
    let i1 = match expect_lit(
        s,
        0,
        "{\"message_type\":\"UsernameChange\",\"message\":null,\"users\":null,\"username\":\"",
    ) {
        Some(j) => j,
        None => {
            proof {
                assert forall|mv: WebSocketMessageView|
                    wf_client(mv) && (mv.message_type is UsernameChange) && s@ == spec_encode(
                        mv,
                    ) implies false by {
                    match mv.username {
                        Some(u) => {
                            lemma_rename_encode(mv, u);
                            lemma_rename_frame_layout(s@, u);
                        },
                        None => {},
                    }
                }
            }
            return None;
        },
    };
    let u_i2 = match parse_string_body(s, i1) {
        Some(p) => p,
        None => {
            proof {
                assert forall|mv: WebSocketMessageView|
                    wf_client(mv) && (mv.message_type is UsernameChange) && s@ == spec_encode(
                        mv,
                    ) implies false by {
                    match mv.username {
                        Some(u) => {
                            lemma_rename_encode(mv, u);
                            lemma_rename_frame_layout(s@, u);
                            assert(string_at(s@, i1 as int, u));
                        },
                        None => {},
                    }
                }
            }
            return None;
        },
    };
    let uname = u_i2.0;
    let i2 = u_i2.1;
    let i3 = match expect_lit(s, i2, "}") {
        Some(j) => j,
        None => {
            proof {
                assert forall|mv: WebSocketMessageView|
                    wf_client(mv) && (mv.message_type is UsernameChange) && s@ == spec_encode(
                        mv,
                    ) implies false by {
                    match mv.username {
                        Some(u) => {
                            lemma_rename_encode(mv, u);
                            lemma_rename_frame_layout(s@, u);
                            assert(string_at(s@, i1 as int, u));
                            assert(matches_at(s@, i2 as int, rename_tail()));
                        },
                        None => {},
                    }
                }
            }
            return None;
        },
    };
    if i3 != n {
        proof {
            assert forall|mv: WebSocketMessageView|
                wf_client(mv) && (mv.message_type is UsernameChange) && s@ == spec_encode(
                    mv,
                ) implies false by {
                match mv.username {
                    Some(u) => {
                        lemma_rename_encode(mv, u);
                        lemma_rename_frame_layout(s@, u);
                        assert(string_at(s@, i1 as int, u));
                    },
                    None => {},
                }
            }
        }
        return None;
    }
    let m = WebSocketMessage {
        message_type: WebSocketMessageType::UsernameChange,
        message: None,
        users: None,
        username: Some(uname),
    };
    proof {
        let uv = m.username->Some_0@;
        lemma_subrange_extend(
            s@,
            i1 as int,
            i2 as int,
            i3 as int,
            spec_escaped(uv) + seq!['"'],
            rename_tail(),
        );
        lemma_subrange_extend(
            s@,
            0,
            i1 as int,
            i3 as int,
            rename_head(),
            (spec_escaped(uv) + seq!['"']) + rename_tail(),
        );
        assert(s@.subrange(0, n as int) =~= s@);
        assert(s@ == rename_frame(uv));
        lemma_rename_encode(m@, uv);
        assert forall|mv: WebSocketMessageView|
            wf_client(mv) && (mv.message_type is UsernameChange) && s@ == spec_encode(
                mv,
            ) implies m@ == mv by {
            match mv.username {
                Some(u) => {
                    lemma_rename_encode(mv, u);
                    lemma_rename_frame_layout(s@, u);
                    assert(string_at(s@, i1 as int, u));
                    assert(u_i2.0@ == u);
                },
                None => {},
            }
        }
    }
    Some(m)
}

/// Decodes one inbound text frame, best effort: exactly the canonical
/// client frames (chat post and rename request) come back as envelopes;
/// everything else is a decode failure, which the session handler treats as
/// "ignore this frame".
#[verifier::rlimit(100)]
pub fn decode_message(s: &str) -> (r: Option<WebSocketMessage>)
    ensures
        (match r {
            Some(m) => wf_client(m@) && s@ == spec_encode(m@),
            None => true,
        }),
        (forall|mv: WebSocketMessageView|
            wf_client(mv) && s@ == spec_encode(mv) ==> match r {
                Some(m) => m@ == mv,
                None => false,
            }),
{
    let chat = try_chat(s);
    match chat {
        Some(m) => {
            proof {
                // a canonical chat post is no rename request: the two frame
                // heads differ where the discriminant starts
                assert forall|mv: WebSocketMessageView|
                    wf_client(mv) && s@ == spec_encode(mv) implies m@ == mv by {
                    if !(mv.message_type is NewMessage) {
                        match (m@.message, mv.username) {
                            (Some(cm), Some(u)) => {
                                lemma_chat_encode(m@, cm);
                                lemma_chat_frame_layout(s@, cm);
                                lemma_rename_encode(mv, u);
                                lemma_rename_frame_layout(s@, u);
                                reveal_strlit(
                                    "{\"message_type\":\"NewMessage\",\"message\":{\"message\":\"",
                                );
                                reveal_strlit(
                                    "{\"message_type\":\"UsernameChange\",\"message\":null,\"users\":null,\"username\":\"",
                                );
                                assert(s@.subrange(0, chat_head().len() as int)[17] == s@[17]);
                                assert(s@.subrange(0, rename_head().len() as int)[17] == s@[17]);
                                assert(chat_head()[17] == 'N');
                                assert(rename_head()[17] == 'U');
                                assert(false);
                            },
                            _ => {},
                        }
                    }
                }
            }
            Some(m)
        },
        None => {
            let ren = try_rename(s);
            ren
        },
    }
}

} // verus!
