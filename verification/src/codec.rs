//! The JSON wire codec for access events.
//!
//! The wire message is one JSON object with a fixed field order:
//! `event_id`, `code` and `accessed_at` as strings, then `user_agent`,
//! `ip_address` and `referer` as strings or `null`. Field text is
//! carried as a JSON string: quotes and backslashes are escaped as
//! `\"` and `\\`, control characters as `\u00` plus two lowercase hex
//! digits, and every other character verbatim — so any event can be
//! encoded. The decoder accepts exactly the encoder's output: its
//! contract states both soundness (whatever it accepts is the encoding
//! of the event it returns) and completeness (the encoding of any event
//! is accepted and decodes to that event's fields).

use vstd::prelude::*;
use crate::event::{AccessEvent, opt_view_eq};
use crate::strutil::push_char;

verus! {

/// Characters with the same code point are the same character.
proof fn lemma_char_eq_u32(a: char, b: char)
    requires
        a as u32 == b as u32,
    ensures
        a == b,
{
}

/// The lowercase hexadecimal digit of a value below sixteen.
pub open spec fn hex_lo_char(n: int) -> char {
    if n == 0 {
        '0'
    } else if n == 1 {
        '1'
    } else if n == 2 {
        '2'
    } else if n == 3 {
        '3'
    } else if n == 4 {
        '4'
    } else if n == 5 {
        '5'
    } else if n == 6 {
        '6'
    } else if n == 7 {
        '7'
    } else if n == 8 {
        '8'
    } else if n == 9 {
        '9'
    } else if n == 10 {
        'a'
    } else if n == 11 {
        'b'
    } else if n == 12 {
        'c'
    } else if n == 13 {
        'd'
    } else if n == 14 {
        'e'
    } else {
        'f'
    }
}

/// The high hex digit of a control character's code (always `0` or `1`).
pub open spec fn ctrl_hi(c: char) -> char {
    if (c as u32) < 16 {
        '0'
    } else {
        '1'
    }
}

/// The low hex digit of a control character's code.
pub open spec fn ctrl_lo(c: char) -> char {
    hex_lo_char((c as u32) as int % 16)
}

/// The wire form of one character of field text: `\"` for the quote,
/// `\\` for the backslash, `\u00` plus two lowercase hex digits for a
/// control character, the character itself otherwise.
pub open spec fn escape_char(c: char) -> Seq<char> {
    if c == '"' {
        seq!['\\', '"']
    } else if c == '\\' {
        seq!['\\', '\\']
    } else if (c as u32) < 0x20 {
        seq!['\\', 'u', '0', '0', ctrl_hi(c), ctrl_lo(c)]
    } else {
        seq![c]
    }
}

/// The wire form of field text: each character escaped in turn.
pub open spec fn escape_text(s: Seq<char>) -> Seq<char>
    decreases s.len(),
{
    if s.len() == 0 {
        Seq::empty()
    } else {
        escape_char(s[0]) + escape_text(s.drop_first())
    }
}

/// Escaping one more trailing character appends its wire form.
proof fn lemma_escape_snoc(s: Seq<char>, c: char)
    ensures
        escape_text(s.push(c)) == escape_text(s) + escape_char(c),
    decreases s.len(),
{
    if s.len() == 0 {
        let t = s.push(c);
        assert(t.len() == 1 && t[0] == c);
        assert(t.drop_first() =~= Seq::<char>::empty());
        assert(escape_text(t) == escape_char(c) + escape_text(t.drop_first()));
        assert(escape_text(Seq::<char>::empty()) =~= Seq::<char>::empty());
        assert(escape_text(s) =~= Seq::<char>::empty());
        assert(escape_text(t) =~= escape_text(s) + escape_char(c));
    } else {
        assert(s.push(c)[0] == s[0]);
        assert(s.push(c).drop_first() =~= s.drop_first().push(c));
        lemma_escape_snoc(s.drop_first(), c);
        assert(escape_text(s.push(c)) =~= escape_text(s) + escape_char(c));
    }
}

/// No character's wire form starts with a quote, and escaped forms
/// start with a backslash.
proof fn lemma_escape_char_shape(c: char)
    ensures
        1 <= escape_char(c).len() <= 6,
        escape_char(c)[0] != '"',
        escape_char(c).len() == 1 ==> escape_char(c)[0] == c && c != '"' && c != '\\' && (
        c as u32) >= 0x20,
        escape_char(c).len() > 1 ==> escape_char(c)[0] == '\\',
{
}

/// Aligning a scanned prefix against a terminated wire form: if
/// `escape_text(fa)` and `escape_text(g)` both match `s` at `i`, and an
/// unescaped quote closes `g`'s form, then `fa` is a prefix of `g`, and
/// where it is proper, `g`'s next character's wire form follows it.
proof fn lemma_escape_align(s: Seq<char>, i: int, fa: Seq<char>, g: Seq<char>)
    requires
        0 <= i,
        i + escape_text(fa).len() <= s.len(),
        i + escape_text(g).len() < s.len(),
        forall|m: int| 0 <= m < escape_text(fa).len() ==> s[i + m] == #[trigger] escape_text(
            fa,
        )[m],
        forall|m: int| 0 <= m < escape_text(g).len() ==> s[i + m] == #[trigger] escape_text(
            g,
        )[m],
        s[i + escape_text(g).len()] == '"',
    ensures
        fa.len() <= g.len(),
        fa == g.subrange(0, fa.len() as int),
        escape_text(fa).len() <= escape_text(g).len(),
        fa.len() == g.len() ==> fa == g && escape_text(fa).len() == escape_text(g).len(),
        fa.len() < g.len() ==> ({
            &&& escape_text(fa).len() + escape_char(g[fa.len() as int]).len() <= escape_text(
                g,
            ).len()
            &&& forall|m: int| 0 <= m < escape_char(g[fa.len() as int]).len() ==> s[i
                + escape_text(fa).len() + m] == #[trigger] escape_char(g[fa.len() as int])[m]
        }),
    decreases fa.len(),
{
    let efa = escape_text(fa);
    let eg = escape_text(g);
    if fa.len() == 0 {
        assert(fa =~= g.subrange(0, 0));
        if g.len() > 0 {
            let w = escape_char(g[0]);
            assert(eg == w + escape_text(g.drop_first()));
            lemma_escape_char_shape(g[0]);
            assert(forall|m: int| 0 <= m < w.len() ==> eg[m] == #[trigger] w[m]);
        }
    } else {
        let wa = escape_char(fa[0]);
        assert(efa == wa + escape_text(fa.drop_first()));
        lemma_escape_char_shape(fa[0]);
        assert(forall|m: int| 0 <= m < wa.len() ==> efa[m] == #[trigger] wa[m]);
        if g.len() == 0 {
            assert(eg.len() == 0);
            assert(s[i] == '"');
            assert(s[i] == wa[0]);
            assert(false);
        }
        let wg = escape_char(g[0]);
        assert(eg == wg + escape_text(g.drop_first()));
        lemma_escape_char_shape(g[0]);
        assert(forall|m: int| 0 <= m < wg.len() ==> eg[m] == #[trigger] wg[m]);
        assert(s[i] == wa[0] && s[i] == wg[0]);
        // the first characters agree: case on the code-word class
        if wa[0] == '\\' {
            assert(wa.len() >= 2 && wg.len() >= 2);
            assert(s[i + 1] == wa[1] && s[i + 1] == wg[1]);
            if wa[1] == 'u' {
                assert((fa[0] as u32) < 0x20 && (g[0] as u32) < 0x20);
                assert(s[i + 4] == wa[4] && s[i + 4] == wg[4]);
                assert(s[i + 5] == wa[5] && s[i + 5] == wg[5]);
                assert(ctrl_hi(fa[0]) == ctrl_hi(g[0]));
                assert(ctrl_lo(fa[0]) == ctrl_lo(g[0]));
                assert((fa[0] as u32) / 16 == (g[0] as u32) / 16) by {
                    if ctrl_hi(fa[0]) == '0' {
                        assert((fa[0] as u32) < 16 && (g[0] as u32) < 16);
                    } else {
                        assert((fa[0] as u32) >= 16 && (g[0] as u32) >= 16);
                    }
                }
                assert((fa[0] as u32) % 16 == (g[0] as u32) % 16) by {
                    let a = (fa[0] as u32) as int % 16;
                    let b = (g[0] as u32) as int % 16;
                    assert(hex_lo_char(a) == hex_lo_char(b));
                    assert(0 <= a < 16 && 0 <= b < 16);
                    assert(a == b);
                }
                assert((fa[0] as u32) == 16 * ((fa[0] as u32) / 16) + (fa[0] as u32) % 16);
                assert((g[0] as u32) == 16 * ((g[0] as u32) / 16) + (g[0] as u32) % 16);
                assert((fa[0] as u32) == (g[0] as u32));
                lemma_char_eq_u32(fa[0], g[0]);
                assert(fa[0] == g[0]);
            } else {
                assert(fa[0] == g[0]);
            }
        } else {
            assert(wa.len() == 1 && wa[0] == fa[0]);
            assert(wg[0] != '\\');
            lemma_escape_char_shape(g[0]);
            assert(wg.len() == 1 && wg[0] == g[0]);
            assert(fa[0] == g[0]);
        }
        assert(wa == wg);
        let i2 = i + wa.len();
        let fa2 = fa.drop_first();
        let g2 = g.drop_first();
        assert(forall|m: int| 0 <= m < escape_text(fa2).len() ==> s[i2 + m]
            == #[trigger] escape_text(fa2)[m]) by {
            assert(forall|m: int| 0 <= m < escape_text(fa2).len() ==> escape_text(fa2)[m]
                == efa[wa.len() + m]);
        }
        assert(forall|m: int| 0 <= m < escape_text(g2).len() ==> s[i2 + m]
            == #[trigger] escape_text(g2)[m]) by {
            assert(forall|m: int| 0 <= m < escape_text(g2).len() ==> escape_text(g2)[m]
                == eg[wg.len() + m]);
        }
        assert(s[i2 + escape_text(g2).len()] == '"');
        lemma_escape_align(s, i2, fa2, g2);
        assert forall|k: int| 0 <= k < fa.len() implies fa[k] == g.subrange(
            0,
            fa.len() as int,
        )[k] by {
            if k > 0 {
                assert(fa2[k - 1] == fa[k]);
                assert(fa2[k - 1] == g2.subrange(0, fa2.len() as int)[k - 1]);
                assert(g2.subrange(0, fa2.len() as int)[k - 1] == g2[k - 1]);
                assert(g2[k - 1] == g[k]);
            }
        }
        assert(fa =~= g.subrange(0, fa.len() as int));
        if fa.len() == g.len() {
            assert(fa2 == g2);
            assert(fa =~= g);
        }
        if fa.len() < g.len() {
            assert(g2[fa2.len() as int] == g[fa.len() as int]);
        }
    }
}

/// Two quote-terminated wire forms at the same position decode to the
/// same text.
proof fn lemma_escape_pin(s: Seq<char>, i: int, fp: Seq<char>, g: Seq<char>)
    requires
        0 <= i,
        i + escape_text(fp).len() < s.len(),
        i + escape_text(g).len() < s.len(),
        forall|m: int| 0 <= m < escape_text(fp).len() ==> s[i + m] == #[trigger] escape_text(
            fp,
        )[m],
        s[i + escape_text(fp).len()] == '"',
        forall|m: int| 0 <= m < escape_text(g).len() ==> s[i + m] == #[trigger] escape_text(
            g,
        )[m],
        s[i + escape_text(g).len()] == '"',
    ensures
        fp == g,
        escape_text(fp).len() == escape_text(g).len(),
{
    lemma_escape_align(s, i, fp, g);
    if fp.len() < g.len() {
        let w = escape_char(g[fp.len() as int]);
        lemma_escape_char_shape(g[fp.len() as int]);
        assert(s[i + escape_text(fp).len()] == w[0]);
        assert(false);
    }
    assert(fp == g);
}

/// The value of a lowercase hexadecimal digit, or nothing for any
/// other character.
fn hex_val(c: char) -> (r: Option<u32>)
    ensures
        r matches Some(v) ==> v < 16 && hex_lo_char(v as int) == c,
        r is None ==> forall|n: int| 0 <= n < 16 ==> hex_lo_char(n) != c,
{
    if c == '0' {
        Some(0)
    } else if c == '1' {
        Some(1)
    } else if c == '2' {
        Some(2)
    } else if c == '3' {
        Some(3)
    } else if c == '4' {
        Some(4)
    } else if c == '5' {
        Some(5)
    } else if c == '6' {
        Some(6)
    } else if c == '7' {
        Some(7)
    } else if c == '8' {
        Some(8)
    } else if c == '9' {
        Some(9)
    } else if c == 'a' {
        Some(10)
    } else if c == 'b' {
        Some(11)
    } else if c == 'c' {
        Some(12)
    } else if c == 'd' {
        Some(13)
    } else if c == 'e' {
        Some(14)
    } else if c == 'f' {
        Some(15)
    } else {
        None
    }
}

/// The lowercase hexadecimal digit of a value below sixteen.
fn hex_lo_exec(n: u32) -> (r: char)
    requires
        n < 16,
    ensures
        r == hex_lo_char(n as int),
{
    if n == 0 {
        '0'
    } else if n == 1 {
        '1'
    } else if n == 2 {
        '2'
    } else if n == 3 {
        '3'
    } else if n == 4 {
        '4'
    } else if n == 5 {
        '5'
    } else if n == 6 {
        '6'
    } else if n == 7 {
        '7'
    } else if n == 8 {
        '8'
    } else if n == 9 {
        '9'
    } else if n == 10 {
        'a'
    } else if n == 11 {
        'b'
    } else if n == 12 {
        'c'
    } else if n == 13 {
        'd'
    } else if n == 14 {
        'e'
    } else {
        'f'
    }
}

/// The control character with the given code.
fn ctrl_char_of(n: u32) -> (r: char)
    requires
        n < 32,
    ensures
        (r as u32) == n,
{
    if n == 0 {
        '\u{00}'
    } else if n == 1 {
        '\u{01}'
    } else if n == 2 {
        '\u{02}'
    } else if n == 3 {
        '\u{03}'
    } else if n == 4 {
        '\u{04}'
    } else if n == 5 {
        '\u{05}'
    } else if n == 6 {
        '\u{06}'
    } else if n == 7 {
        '\u{07}'
    } else if n == 8 {
        '\u{08}'
    } else if n == 9 {
        '\u{09}'
    } else if n == 10 {
        '\u{0a}'
    } else if n == 11 {
        '\u{0b}'
    } else if n == 12 {
        '\u{0c}'
    } else if n == 13 {
        '\u{0d}'
    } else if n == 14 {
        '\u{0e}'
    } else if n == 15 {
        '\u{0f}'
    } else if n == 16 {
        '\u{10}'
    } else if n == 17 {
        '\u{11}'
    } else if n == 18 {
        '\u{12}'
    } else if n == 19 {
        '\u{13}'
    } else if n == 20 {
        '\u{14}'
    } else if n == 21 {
        '\u{15}'
    } else if n == 22 {
        '\u{16}'
    } else if n == 23 {
        '\u{17}'
    } else if n == 24 {
        '\u{18}'
    } else if n == 25 {
        '\u{19}'
    } else if n == 26 {
        '\u{1a}'
    } else if n == 27 {
        '\u{1b}'
    } else if n == 28 {
        '\u{1c}'
    } else if n == 29 {
        '\u{1d}'
    } else if n == 30 {
        '\u{1e}'
    } else {
        '\u{1f}'
    }
}

/// The wire form of an optional field: `null`, or the escaped text in
/// quotes.
pub open spec fn opt_json(o: Option<String>) -> Seq<char> {
    match o {
        None => "null"@,
        Some(s) => seq!['"'] + escape_text(s@) + seq!['"'],
    }
}

/// The wire message up to and including the quoted `event_id`.
pub open spec fn json_upto_id(e: AccessEvent) -> Seq<char> {
    "{\"event_id\":\""@ + escape_text(e.event_id@) + "\""@
}

/// The wire message up to and including the quoted `code`.
pub open spec fn json_upto_code(e: AccessEvent) -> Seq<char> {
    json_upto_id(e) + ",\"code\":\""@ + escape_text(e.code@) + "\""@
}

/// The wire message up to and including the quoted `accessed_at`.
pub open spec fn json_upto_at(e: AccessEvent) -> Seq<char> {
    json_upto_code(e) + ",\"accessed_at\":\""@ + escape_text(e.accessed_at@) + "\""@
}

/// The wire message up to and including the `user_agent` value.
pub open spec fn json_upto_ua(e: AccessEvent) -> Seq<char> {
    json_upto_at(e) + ",\"user_agent\":"@ + opt_json(e.user_agent)
}

/// The wire message up to and including the `ip_address` value.
pub open spec fn json_upto_ip(e: AccessEvent) -> Seq<char> {
    json_upto_ua(e) + ",\"ip_address\":"@ + opt_json(e.ip_address)
}

/// The wire message up to and including the `referer` value.
pub open spec fn json_upto_ref(e: AccessEvent) -> Seq<char> {
    json_upto_ip(e) + ",\"referer\":"@ + opt_json(e.referer)
}

/// The canonical wire message of an event.
pub open spec fn event_json(e: AccessEvent) -> Seq<char> {
    json_upto_ref(e) + "}"@
}

/// Start of the `event_id` wire form in a canonical message.
pub open spec fn p_id(e: AccessEvent) -> int {
    "{\"event_id\":\""@.len() as int
}

/// Start of the `code` wire form.
pub open spec fn p_code(e: AccessEvent) -> int {
    p_id(e) + escape_text(e.event_id@).len() + 1 + ",\"code\":\""@.len()
}

/// Start of the `accessed_at` wire form.
pub open spec fn p_at(e: AccessEvent) -> int {
    p_code(e) + escape_text(e.code@).len() + 1 + ",\"accessed_at\":\""@.len()
}

/// Start of the `user_agent` value.
pub open spec fn p_ua(e: AccessEvent) -> int {
    p_at(e) + escape_text(e.accessed_at@).len() + 1 + ",\"user_agent\":"@.len()
}

/// Start of the `ip_address` value.
pub open spec fn p_ip(e: AccessEvent) -> int {
    p_ua(e) + opt_json(e.user_agent).len() + ",\"ip_address\":"@.len()
}

/// Start of the `referer` value.
pub open spec fn p_ref(e: AccessEvent) -> int {
    p_ip(e) + opt_json(e.ip_address).len() + ",\"referer\":"@.len()
}

/// Length of the whole canonical message.
pub open spec fn p_end(e: AccessEvent) -> int {
    p_ref(e) + opt_json(e.referer).len() + 1
}

/// Where each literal, field wire form and quote of a canonical message
/// sits.
#[verifier::rlimit(80)]
proof fn lemma_canonical_structure(s: Seq<char>, e: AccessEvent)
    requires
        s == event_json(e),
    ensures
        s.len() == p_end(e),
        s.subrange(0, p_id(e)) == "{\"event_id\":\""@,
        forall|m: int| 0 <= m < escape_text(e.event_id@).len() ==> s[p_id(e) + m]
            == #[trigger] escape_text(e.event_id@)[m],
        s[p_id(e) + escape_text(e.event_id@).len()] == '"',
        s.subrange(p_id(e) + escape_text(e.event_id@).len() + 1, p_code(e)) == ",\"code\":\""@,
        forall|m: int| 0 <= m < escape_text(e.code@).len() ==> s[p_code(e) + m]
            == #[trigger] escape_text(e.code@)[m],
        s[p_code(e) + escape_text(e.code@).len()] == '"',
        s.subrange(p_code(e) + escape_text(e.code@).len() + 1, p_at(e))
            == ",\"accessed_at\":\""@,
        forall|m: int| 0 <= m < escape_text(e.accessed_at@).len() ==> s[p_at(e) + m]
            == #[trigger] escape_text(e.accessed_at@)[m],
        s[p_at(e) + escape_text(e.accessed_at@).len()] == '"',
        s.subrange(p_at(e) + escape_text(e.accessed_at@).len() + 1, p_ua(e))
            == ",\"user_agent\":"@,
        s.subrange(p_ua(e), p_ua(e) + opt_json(e.user_agent).len()) == opt_json(e.user_agent),
        s.subrange(p_ua(e) + opt_json(e.user_agent).len(), p_ip(e)) == ",\"ip_address\":"@,
        s.subrange(p_ip(e), p_ip(e) + opt_json(e.ip_address).len()) == opt_json(e.ip_address),
        s.subrange(p_ip(e) + opt_json(e.ip_address).len(), p_ref(e)) == ",\"referer\":"@,
        s.subrange(p_ref(e), p_ref(e) + opt_json(e.referer).len()) == opt_json(e.referer),
        s.subrange(p_ref(e) + opt_json(e.referer).len(), p_end(e)) == "}"@,
{
    reveal_strlit("\"");
    reveal_strlit("}");
    assert(("\"")@.len() == 1);
    assert(("}")@.len() == 1);
    let t_id = json_upto_id(e);
    let t_code = json_upto_code(e);
    let t_at = json_upto_at(e);
    let t_ua = json_upto_ua(e);
    let t_ip = json_upto_ip(e);
    let t_ref = json_upto_ref(e);
    assert(t_id.len() == p_id(e) + escape_text(e.event_id@).len() + 1);
    assert(t_code.len() == p_code(e) + escape_text(e.code@).len() + 1);
    assert(t_at.len() == p_at(e) + escape_text(e.accessed_at@).len() + 1);
    assert(t_ua.len() == p_ua(e) + opt_json(e.user_agent).len());
    assert(t_ip.len() == p_ip(e) + opt_json(e.ip_address).len());
    assert(t_ref.len() == p_ref(e) + opt_json(e.referer).len());
    assert(s.len() == p_end(e));
    // each prefix is literally a prefix of the message
    assert(s.subrange(0, t_ref.len() as int) =~= t_ref);
    assert(t_ref.subrange(0, t_ip.len() as int) =~= t_ip);
    assert(t_ip.subrange(0, t_ua.len() as int) =~= t_ua);
    assert(t_ua.subrange(0, t_at.len() as int) =~= t_at);
    assert(t_at.subrange(0, t_code.len() as int) =~= t_code);
    assert(t_code.subrange(0, t_id.len() as int) =~= t_id);
    assert(forall|k: int| 0 <= k < t_ref.len() ==> s[k] == #[trigger] t_ref[k]);
    assert(forall|k: int| 0 <= k < t_ip.len() ==> t_ref[k] == #[trigger] t_ip[k]);
    assert(forall|k: int| 0 <= k < t_ua.len() ==> t_ip[k] == #[trigger] t_ua[k]);
    assert(forall|k: int| 0 <= k < t_at.len() ==> t_ua[k] == #[trigger] t_at[k]);
    assert(forall|k: int| 0 <= k < t_code.len() ==> t_at[k] == #[trigger] t_code[k]);
    assert(forall|k: int| 0 <= k < t_id.len() ==> t_code[k] == #[trigger] t_id[k]);
    assert(forall|k: int| 0 <= k < t_id.len() ==> s[k] == #[trigger] t_id[k]);
    assert(forall|k: int| 0 <= k < t_code.len() ==> s[k] == #[trigger] t_code[k]);
    assert(forall|k: int| 0 <= k < t_at.len() ==> s[k] == #[trigger] t_at[k]);
    assert(forall|k: int| 0 <= k < t_ua.len() ==> s[k] == #[trigger] t_ua[k]);
    assert(forall|k: int| 0 <= k < t_ip.len() ==> s[k] == #[trigger] t_ip[k]);
    assert(s.subrange(0, p_id(e)) =~= "{\"event_id\":\""@);
    assert forall|m: int| 0 <= m < escape_text(e.event_id@).len() implies s[p_id(e) + m]
        == #[trigger] escape_text(e.event_id@)[m] by {
        assert(t_id[p_id(e) + m] == escape_text(e.event_id@)[m]);
    }
    assert(t_id[p_id(e) + escape_text(e.event_id@).len()] == '"');
    assert(s.subrange(p_id(e) + escape_text(e.event_id@).len() + 1, p_code(e))
        =~= ",\"code\":\""@) by {
        assert(forall|k: int| t_id.len() <= k < t_id.len() + ",\"code\":\""@.len() ==> t_code[k]
            == #[trigger] ",\"code\":\""@[k - t_id.len()]);
    }
    assert forall|m: int| 0 <= m < escape_text(e.code@).len() implies s[p_code(e) + m]
        == #[trigger] escape_text(e.code@)[m] by {
        assert(t_code[p_code(e) + m] == escape_text(e.code@)[m]);
    }
    assert(t_code[p_code(e) + escape_text(e.code@).len()] == '"');
    assert(s.subrange(p_code(e) + escape_text(e.code@).len() + 1, p_at(e))
        =~= ",\"accessed_at\":\""@) by {
        assert(forall|k: int| t_code.len() <= k < t_code.len() + ",\"accessed_at\":\""@.len()
            ==> t_at[k] == #[trigger] ",\"accessed_at\":\""@[k - t_code.len()]);
    }
    assert forall|m: int| 0 <= m < escape_text(e.accessed_at@).len() implies s[p_at(e) + m]
        == #[trigger] escape_text(e.accessed_at@)[m] by {
        assert(t_at[p_at(e) + m] == escape_text(e.accessed_at@)[m]);
    }
    assert(t_at[p_at(e) + escape_text(e.accessed_at@).len()] == '"');
    assert(s.subrange(p_at(e) + escape_text(e.accessed_at@).len() + 1, p_ua(e))
        =~= ",\"user_agent\":"@) by {
        assert(forall|k: int| t_at.len() <= k < t_at.len() + ",\"user_agent\":"@.len()
            ==> t_ua[k] == #[trigger] ",\"user_agent\":"@[k - t_at.len()]);
    }
    assert(s.subrange(p_ua(e), p_ua(e) + opt_json(e.user_agent).len()) =~= opt_json(
        e.user_agent,
    )) by {
        assert(forall|k: int| p_ua(e) <= k < t_ua.len() ==> t_ua[k] == #[trigger] opt_json(
            e.user_agent,
        )[k - p_ua(e)]);
    }
    assert(s.subrange(p_ua(e) + opt_json(e.user_agent).len(), p_ip(e)) =~= ",\"ip_address\":"@)
        by {
        assert(forall|k: int| t_ua.len() <= k < t_ua.len() + ",\"ip_address\":"@.len()
            ==> t_ip[k] == #[trigger] ",\"ip_address\":"@[k - t_ua.len()]);
    }
    assert(s.subrange(p_ip(e), p_ip(e) + opt_json(e.ip_address).len()) =~= opt_json(
        e.ip_address,
    )) by {
        assert(forall|k: int| p_ip(e) <= k < t_ip.len() ==> t_ip[k] == #[trigger] opt_json(
            e.ip_address,
        )[k - p_ip(e)]);
    }
    assert(s.subrange(p_ip(e) + opt_json(e.ip_address).len(), p_ref(e)) =~= ",\"referer\":"@)
        by {
        assert(forall|k: int| t_ip.len() <= k < t_ip.len() + ",\"referer\":"@.len()
            ==> t_ref[k] == #[trigger] ",\"referer\":"@[k - t_ip.len()]);
    }
    assert(s.subrange(p_ref(e), p_ref(e) + opt_json(e.referer).len()) =~= opt_json(e.referer))
        by {
        assert(forall|k: int| p_ref(e) <= k < t_ref.len() ==> t_ref[k] == #[trigger] opt_json(
            e.referer,
        )[k - p_ref(e)]);
    }
    assert(s.subrange(p_ref(e) + opt_json(e.referer).len(), p_end(e)) =~= "}"@);
}

/// Matches the literal `lit` in `s` at position `i`: the position after
/// it on a match, nothing exactly when the literal is not there.
fn expect_lit(s: &str, i: usize, lit: &str) -> (r: Option<usize>)
    requires
        i <= s@.len(),
    ensures
        r matches Some(j) ==> j == i + lit@.len() && j <= s@.len() && s@.subrange(
            i as int,
            j as int,
        ) == lit@,
        r is None ==> !(i + lit@.len() <= s@.len() && s@.subrange(
            i as int,
            i + lit@.len() as int,
        ) == lit@),
    {
    let slen = s.unicode_len();
    let llen = lit.unicode_len();
    if llen > slen - i {
        proof {
            if i + lit@.len() <= s@.len() {
                assert(false);
            }
        }
        return None;
    }
    let mut k: usize = 0;
    while k < llen
        invariant
            slen == s@.len(),
            llen == lit@.len(),
            i + llen <= slen,
            0 <= k <= llen,
            forall|m: int| 0 <= m < k ==> s@[i + m] == #[trigger] lit@[m],
        decreases llen - k,
    {
        if s.get_char(i + k) != lit.get_char(k) {
            proof {
                if s@.subrange(i as int, i + lit@.len() as int) == lit@ {
                    assert(s@.subrange(i as int, i + lit@.len() as int)[k as int] == s@[i + k]);
                    assert(false);
                }
            }
            return None;
        }
        k += 1;
    }
    proof {
        assert(s@.subrange(i as int, i + lit@.len() as int) =~= lit@);
    }
    Some(i + llen)
}

/// Whether a quote-terminated field wire form sits in `s` at `i` and
/// decodes to `g` (the quote itself not included in the form).
pub open spec fn escaped_field_at(s: Seq<char>, i: int, g: Seq<char>) -> bool {
    &&& i + escape_text(g).len() < s.len()
    &&& (forall|m: int| 0 <= m < escape_text(g).len() ==> s[i + m] == #[trigger] escape_text(
        g,
    )[m])
    &&& s[i + escape_text(g).len()] == '"'
}

/// Scans a field's wire form from position `i` up to the closing
/// unescaped quote, decoding `\"`, `\\` and canonical `\u00` escapes.
/// On a match it returns the decoded text and the position just after
/// the quote; it returns nothing exactly when no field wire form is
/// closed by a quote there.
#[verifier::rlimit(100)]
fn scan_text(s: &str, i: usize) -> (r: Option<(String, usize)>)
    requires
        i <= s@.len(),
    ensures
        r matches Some(p) ==> ({
            &&& i < p.1 <= s@.len()
            &&& s@[p.1 - 1] == '"'
            &&& p.1 - 1 - i == escape_text(p.0@).len()
            &&& forall|m: int| 0 <= m < escape_text(p.0@).len() ==> s@[i + m]
                == #[trigger] escape_text(p.0@)[m]
        }),
        r is None ==> forall|g: Seq<char>| !escaped_field_at(s@, i as int, g),
    {
    let slen = s.unicode_len();
    let mut f = String::new();
    let mut k: usize = i;
    loop
        invariant
            slen == s@.len(),
            i <= k <= slen,
            k - i == escape_text(f@).len(),
            forall|m: int| 0 <= m < escape_text(f@).len() ==> s@[i + m] == #[trigger] escape_text(
                f@,
            )[m],
        decreases slen - k,
    {
        if k >= slen {
            proof {
                assert forall|g: Seq<char>| !escaped_field_at(s@, i as int, g) by {
                    if escaped_field_at(s@, i as int, g) {
                        lemma_escape_align(s@, i as int, f@, g);
                        if f@.len() == g.len() {
                            assert(k < slen);
                        } else {
                            lemma_escape_char_shape(g[f@.len() as int]);
                            assert(k + escape_char(g[f@.len() as int]).len() <= i
                                + escape_text(g).len());
                            assert(k < slen);
                        }
                        assert(false);
                    }
                }
            }
            return None;
        }
        let c = s.get_char(k);
        if c == '"' {
            return Some((f, k + 1));
        }
        if c == '\\' {
            if k + 1 >= slen {
                proof {
                    assert forall|g: Seq<char>| !escaped_field_at(s@, i as int, g) by {
                        if escaped_field_at(s@, i as int, g) {
                            lemma_escape_align(s@, i as int, f@, g);
                            if f@.len() == g.len() {
                                assert(s@[k as int] == '"');
                            } else {
                                let gc = g[f@.len() as int];
                                let w = escape_char(gc);
                                lemma_escape_char_shape(gc);
                                assert(s@[k as int] == w[0]);
                                assert(w.len() >= 2);
                                assert(k + w.len() <= i + escape_text(g).len());
                                assert(k + 1 < slen);
                            }
                            assert(false);
                        }
                    }
                }
                return None;
            }
            let c2 = s.get_char(k + 1);
            if c2 == '"' || c2 == '\\' {
                let ghost f0 = f@;
                push_char(&mut f, c2);
                proof {
                    lemma_escape_snoc(f0, c2);
                    assert(escape_char(c2) =~= seq!['\\', c2]);
                    assert(forall|m: int| 0 <= m < escape_text(f@).len() ==> s@[i + m]
                        == #[trigger] escape_text(f@)[m]);
                }
                k += 2;
            } else if c2 == 'u' {
                if slen - k <= 5 {
                    proof {
                        assert forall|g: Seq<char>| !escaped_field_at(s@, i as int, g) by {
                            if escaped_field_at(s@, i as int, g) {
                                lemma_escape_align(s@, i as int, f@, g);
                                if f@.len() == g.len() {
                                    assert(s@[k as int] == '"');
                                } else {
                                    let gc = g[f@.len() as int];
                                    let w = escape_char(gc);
                                    lemma_escape_char_shape(gc);
                                    assert(s@[k as int] == w[0]);
                                    assert(s@[k + 1] == w[1]);
                                    assert(w.len() == 6);
                                    assert(k + w.len() <= i + escape_text(g).len());
                                    assert(k + 5 < slen);
                                }
                                assert(false);
                            }
                        }
                    }
                    return None;
                }
                let d2 = s.get_char(k + 2);
                let d3 = s.get_char(k + 3);
                let h1 = s.get_char(k + 4);
                let h2 = s.get_char(k + 5);
                let hi_ok = d2 == '0' && d3 == '0' && (h1 == '0' || h1 == '1');
                let lo = hex_val(h2);
                if !hi_ok || lo.is_none() {
                    proof {
                        assert forall|g: Seq<char>| !escaped_field_at(s@, i as int, g) by {
                            if escaped_field_at(s@, i as int, g) {
                                lemma_escape_align(s@, i as int, f@, g);
                                if f@.len() == g.len() {
                                    assert(s@[k as int] == '"');
                                } else {
                                    let gc = g[f@.len() as int];
                                    let w = escape_char(gc);
                                    lemma_escape_char_shape(gc);
                                    assert(s@[k as int] == w[0]);
                                    assert(s@[k + 1] == w[1]);
                                    assert(w.len() == 6);
                                    assert(s@[k + 2] == w[2] && s@[k + 3] == w[3]);
                                    assert(s@[k + 4] == w[4] && s@[k + 5] == w[5]);
                                    assert(w[2] == '0' && w[3] == '0');
                                    assert(w[4] == ctrl_hi(gc) && w[5] == ctrl_lo(gc));
                                    assert(ctrl_hi(gc) == '0' || ctrl_hi(gc) == '1');
                                    assert(hi_ok);
                                    assert(hex_lo_char((gc as u32) as int % 16) == h2);
                                    assert(lo is Some);
                                }
                                assert(false);
                            }
                        }
                    }
                    return None;
                }
                let hi: u32 = if h1 == '0' {
                    0
                } else {
                    1
                };
                let lov = lo.unwrap();
                let dc = ctrl_char_of(hi * 16 + lov);
                let ghost f0 = f@;
                push_char(&mut f, dc);
                proof {
                    lemma_escape_snoc(f0, dc);
                    assert((dc as u32) < 0x20);
                    assert(ctrl_hi(dc) == h1);
                    assert(ctrl_lo(dc) == h2) by {
                        assert((dc as u32) as int % 16 == lov as int);
                    }
                    assert(escape_char(dc) =~= seq!['\\', 'u', '0', '0', h1, h2]);
                    assert(forall|m: int| 0 <= m < escape_text(f@).len() ==> s@[i + m]
                        == #[trigger] escape_text(f@)[m]);
                }
                k += 6;
            } else {
                proof {
                    assert forall|g: Seq<char>| !escaped_field_at(s@, i as int, g) by {
                        if escaped_field_at(s@, i as int, g) {
                            lemma_escape_align(s@, i as int, f@, g);
                            if f@.len() == g.len() {
                                assert(s@[k as int] == '"');
                            } else {
                                let gc = g[f@.len() as int];
                                let w = escape_char(gc);
                                lemma_escape_char_shape(gc);
                                assert(s@[k as int] == w[0]);
                                assert(s@[k + 1] == w[1]);
                                assert(w[1] == '"' || w[1] == '\\' || w[1] == 'u');
                            }
                            assert(false);
                        }
                    }
                }
                return None;
            }
        } else if (c as u32) < 0x20 {
            proof {
                assert forall|g: Seq<char>| !escaped_field_at(s@, i as int, g) by {
                    if escaped_field_at(s@, i as int, g) {
                        lemma_escape_align(s@, i as int, f@, g);
                        if f@.len() == g.len() {
                            assert(s@[k as int] == '"');
                        } else {
                            let gc = g[f@.len() as int];
                            let w = escape_char(gc);
                            lemma_escape_char_shape(gc);
                            assert(s@[k as int] == w[0]);
                            if w.len() == 1 {
                                assert((w[0] as u32) >= 0x20);
                            } else {
                                assert(w[0] == '\\');
                                assert((('\\') as u32) >= 0x20);
                            }
                        }
                        assert(false);
                    }
                }
            }
            return None;
        } else {
            let ghost f0 = f@;
            push_char(&mut f, c);
            proof {
                lemma_escape_snoc(f0, c);
                assert(escape_char(c) =~= seq![c]);
                assert(forall|m: int| 0 <= m < escape_text(f@).len() ==> s@[i + m]
                    == #[trigger] escape_text(f@)[m]);
            }
            k += 1;
        }
    }
}

/// Appends the wire form of field text, escaping as the format
/// prescribes.
fn append_escaped(out: &mut String, s: &str)
    ensures
        final(out)@ == old(out)@ + escape_text(s@),
{
    let n = s.unicode_len();
    let mut i: usize = 0;
    proof {
        assert(escape_text(s@.subrange(0, 0)) =~= Seq::<char>::empty());
        assert(out@ =~= old(out)@ + escape_text(s@.subrange(0, 0)));
    }
    while i < n
        invariant
            n == s@.len(),
            0 <= i <= n,
            out@ == old(out)@ + escape_text(s@.subrange(0, i as int)),
        decreases n - i,
    {
        let c = s.get_char(i);
        let ghost pre = s@.subrange(0, i as int);
        if c == '"' {
            push_char(out, '\\');
            push_char(out, '"');
        } else if c == '\\' {
            push_char(out, '\\');
            push_char(out, '\\');
        } else if (c as u32) < 0x20 {
            push_char(out, '\\');
            push_char(out, 'u');
            push_char(out, '0');
            push_char(out, '0');
            let code = c as u32;
            if code < 16 {
                push_char(out, '0');
            } else {
                push_char(out, '1');
            }
            push_char(out, hex_lo_exec(code % 16));
        } else {
            push_char(out, c);
        }
        proof {
            lemma_escape_snoc(pre, c);
            assert(s@.subrange(0, i + 1) =~= pre.push(c));
            assert(out@ =~= old(out)@ + escape_text(s@.subrange(0, i + 1)));
        }
        i += 1;
    }
    proof {
        assert(s@.subrange(0, s@.len() as int) =~= s@);
    }
}

/// Appends the wire form of an optional field.
fn append_opt(out: &mut String, o: &Option<String>)
    ensures
        final(out)@ == old(out)@ + opt_json(*o),
{
    match o {
        None => {
            out.append("null");
        },
        Some(s) => {
            proof {
                reveal_strlit("\"");
            }
            out.append("\"");
            append_escaped(out, s.as_str());
            out.append("\"");
            proof {
                assert(("\"")@ =~= seq!['"']);
                assert(final(out)@ =~= old(out)@ + opt_json(*o));
            }
        },
    }
}

/// Encodes an event as its canonical wire message. Every event can be
/// encoded: field text the format cannot carry verbatim is escaped.
pub fn encode_access_event(e: &AccessEvent) -> (r: String)
    ensures
        r@ == event_json(*e),
{
    proof {
        reveal_strlit("\"");
    }
    let mut out = String::new();
    out.append("{\"event_id\":\"");
    append_escaped(&mut out, e.event_id.as_str());
    out.append("\"");
    out.append(",\"code\":\"");
    append_escaped(&mut out, e.code.as_str());
    out.append("\"");
    out.append(",\"accessed_at\":\"");
    append_escaped(&mut out, e.accessed_at.as_str());
    out.append("\"");
    out.append(",\"user_agent\":");
    append_opt(&mut out, &e.user_agent);
    out.append(",\"ip_address\":");
    append_opt(&mut out, &e.ip_address);
    out.append(",\"referer\":");
    append_opt(&mut out, &e.referer);
    out.append("}");
    proof {
        assert(out@ =~= event_json(*e));
    }
    out
}

/// A parsed optional value over a region known to hold the wire form of
/// `g` is `g` itself, ending where `g`'s wire form ends.
#[verifier::rlimit(30)]
proof fn lemma_opt_pins(s: Seq<char>, i: int, o: Option<String>, j: int, g: Option<String>)
    requires
        0 <= i,
        i + opt_json(g).len() < s.len(),
        s.subrange(i, i + opt_json(g).len()) == opt_json(g),
        i <= j <= s.len(),
        s.subrange(i, j) == opt_json(o),
    ensures
        j == i + opt_json(g).len(),
        opt_view_eq(o, g),
{
    reveal_strlit("null");
    assert(("null")@.len() == 4);
    let gl = opt_json(g).len();
    assert(s.subrange(i, j).len() == j - i);
    assert(s.subrange(i, i + opt_json(g).len()).len() == opt_json(g).len());
    assert(opt_json(o).len() == j - i);
    assert(opt_json(g).len() == gl);
    assert(forall|m: int| 0 <= m < gl ==> s[i + m] == #[trigger] opt_json(g)[m]) by {
        assert(forall|m: int| 0 <= m < gl
            ==> #[trigger] s.subrange(i, i + opt_json(g).len())[m] == s[i + m]);
    }
    assert(forall|m: int| 0 <= m < j - i ==> s[i + m] == #[trigger] opt_json(o)[m]) by {
        assert(forall|m: int| 0 <= m < j - i ==> #[trigger] s.subrange(i, j)[m] == s[i + m]);
    }
    match (o, g) {
        (Option::None, Option::None) => {
            assert(j - i == 4);
        },
        (Option::None, Option::Some(y)) => {
            assert(opt_json(o)[0] == 'n');
            assert(opt_json(g)[0] == '"');
            assert(j - i == 4 && gl >= 2);
            assert(s[i + 0] == opt_json(o)[0]);
            assert(s[i + 0] == opt_json(g)[0]);
            assert(false);
        },
        (Option::Some(x), Option::None) => {
            assert(opt_json(g)[0] == 'n');
            assert(opt_json(o)[0] == '"');
            assert(j - i >= 2 && gl == 4);
            assert(s[i + 0] == opt_json(o)[0]);
            assert(s[i + 0] == opt_json(g)[0]);
            assert(false);
        },
        (Option::Some(x), Option::Some(y)) => {
            assert(opt_json(o).len() == escape_text(x@).len() + 2);
            assert(opt_json(g).len() == escape_text(y@).len() + 2);
            assert(forall|m: int| 0 <= m < escape_text(x@).len() ==> opt_json(o)[1 + m]
                == #[trigger] escape_text(x@)[m]);
            assert(forall|m: int| 0 <= m < escape_text(y@).len() ==> opt_json(g)[1 + m]
                == #[trigger] escape_text(y@)[m]);
            assert(forall|m: int| 0 <= m < escape_text(x@).len() ==> s[i + 1 + m]
                == #[trigger] escape_text(x@)[m]);
            assert(forall|m: int| 0 <= m < escape_text(y@).len() ==> s[i + 1 + m]
                == #[trigger] escape_text(y@)[m]);
            assert(s[i + 1 + escape_text(x@).len()] == opt_json(o)[j - i - 1]);
            assert(s[i + 1 + escape_text(x@).len()] == '"');
            assert(s[i + 1 + escape_text(y@).len()] == opt_json(g)[gl - 1]);
            assert(s[i + 1 + escape_text(y@).len()] == '"');
            lemma_escape_pin(s, i + 1, x@, y@);
            assert(x@ == y@);
        },
    }
}

/// Parses an optional field value at position `i`: `null`, or a quoted
/// field wire form. Returns nothing exactly when neither form is
/// present there.
#[verifier::rlimit(60)]
fn parse_opt(s: &str, i: usize) -> (r: Option<(Option<String>, usize)>)
    requires
        i <= s@.len(),
    ensures
        r matches Some(p) ==> i <= p.1 <= s@.len() && s@.subrange(i as int, p.1 as int)
            == opt_json(p.0),
        r is None ==> forall|g: Option<String>| !(i + opt_json(g).len() < s@.len()
            && s@.subrange(i as int, i + opt_json(g).len()) == opt_json(g)),
    {
    proof {
        reveal_strlit("null");
        assert(("null")@.len() == 4);
    }
    let slen = s.unicode_len();
    if i >= slen {
        proof {
            assert forall|g: Option<String>| !(i + opt_json(g).len() < s@.len() && s@.subrange(
                i as int,
                i + opt_json(g).len(),
            ) == opt_json(g)) by {
                assert(opt_json(g).len() >= 2);
            }
        }
        return None;
    }
    let c = s.get_char(i);
    if c == '"' {
        match scan_text(s, i + 1) {
            Some((f, j)) => {
                proof {
                    assert(s@.subrange(i as int, j as int) =~= opt_json(Some(f)));
                }
                Some((Some(f), j))
            },
            None => {
                proof {
                    assert forall|g: Option<String>| !(i + opt_json(g).len() < s@.len()
                        && s@.subrange(i as int, i + opt_json(g).len()) == opt_json(g)) by {
                        if i + opt_json(g).len() < s@.len() && s@.subrange(
                            i as int,
                            i + opt_json(g).len(),
                        ) == opt_json(g) {
                            let gl = opt_json(g).len();
                            assert(forall|m: int| 0 <= m < gl
                                ==> #[trigger] s@.subrange(i as int, i + gl)[m] == s@[i + m]);
                            match g {
                                Option::None => {
                                    assert(opt_json(g)[0] == 'n');
                                    assert(s@[i as int] == 'n');
                                    assert(false);
                                },
                                Option::Some(y) => {
                                    assert(gl == escape_text(y@).len() + 2);
                                    assert(opt_json(g)[gl - 1] == '"');
                                    assert forall|m: int| 0 <= m < escape_text(y@).len()
                                        implies s@[i + 1 + m] == #[trigger] escape_text(
                                        y@,
                                    )[m] by {
                                        assert(s@.subrange(i as int, i + gl)[1 + m]
                                            == s@[i + 1 + m]);
                                        assert(opt_json(g)[1 + m] == escape_text(y@)[m]);
                                    }
                                    assert(s@.subrange(i as int, i + gl)[gl - 1]
                                        == s@[i + gl - 1]);
                                    assert(s@[i + 1 + escape_text(y@).len()] == '"');
                                    assert(escaped_field_at(s@, i + 1, y@));
                                    assert(false);
                                },
                            }
                        }
                    }
                }
                None
            },
        }
    } else if c == 'n' {
        match expect_lit(s, i, "null") {
            Some(j) => {
                proof {
                    assert(s@.subrange(i as int, j as int) == opt_json(None::<String>));
                }
                Some((None, j))
            },
            None => {
                proof {
                    assert forall|g: Option<String>| !(i + opt_json(g).len() < s@.len()
                        && s@.subrange(i as int, i + opt_json(g).len()) == opt_json(g)) by {
                        if i + opt_json(g).len() < s@.len() && s@.subrange(
                            i as int,
                            i + opt_json(g).len(),
                        ) == opt_json(g) {
                            match g {
                                Option::None => {
                                    assert(false);
                                },
                                Option::Some(y) => {
                                    assert(opt_json(g)[0] == '"');
                                    assert(s@.subrange(i as int, i + opt_json(g).len())[0]
                                        == s@[i as int]);
                                    assert(false);
                                },
                            }
                        }
                    }
                }
                None
            },
        }
    } else {
        proof {
            assert forall|g: Option<String>| !(i + opt_json(g).len() < s@.len() && s@.subrange(
                i as int,
                i + opt_json(g).len(),
            ) == opt_json(g)) by {
                if i + opt_json(g).len() < s@.len() && s@.subrange(
                    i as int,
                    i + opt_json(g).len(),
                ) == opt_json(g) {
                    assert(s@.subrange(i as int, i + opt_json(g).len())[0] == s@[i as int]);
                    match g {
                        Option::None => {
                            assert(opt_json(g)[0] == 'n');
                            assert(false);
                        },
                        Option::Some(y) => {
                            assert(opt_json(g)[0] == '"');
                            assert(false);
                        },
                    }
                }
            }
        }
        None
    }
}

/// Events with the same field text have the same wire message.
proof fn lemma_event_json_view(a: AccessEvent, b: AccessEvent)
    requires
        a.same_view(b),
    ensures
        event_json(a) == event_json(b),
{
    assert(opt_json(a.user_agent) =~= opt_json(b.user_agent));
    assert(opt_json(a.ip_address) =~= opt_json(b.ip_address));
    assert(opt_json(a.referer) =~= opt_json(b.referer));
    assert(event_json(a) =~= event_json(b));
}

/// Decodes a wire message. The decoder accepts exactly the canonical
/// messages: whatever it accepts is the encoding of the returned event
/// (soundness), and the encoding of any event is accepted and returns
/// that event's fields (completeness). Anything else — malformed input —
/// yields nothing, to be discarded by the caller.
#[verifier::rlimit(100)]
pub fn decode_access_event(s: &str) -> (r: Option<AccessEvent>)
    ensures
        r matches Some(d) ==> s@ == event_json(d),
        forall|e: AccessEvent| s@ == event_json(e) ==> (r matches Some(d) && d.same_view(e)),
{
    let ghost canon: Option<AccessEvent> = if exists|e: AccessEvent| s@ == event_json(e) {
        Some(choose|e: AccessEvent| s@ == event_json(e))
    } else {
        None
    };
    proof {
        if canon is Some {
            lemma_canonical_structure(s@, canon->Some_0);
        }
    }
    let j1 = match expect_lit(s, 0, "{\"event_id\":\"") {
        Some(j) => j,
        None => {
            proof {
                if canon is Some {
                    assert(false);
                }
            }
            return None;
        },
    };
    let (idf, j2) = match scan_text(s, j1) {
        Some(p) => p,
        None => {
            proof {
                if canon is Some {
                    let e = canon->Some_0;
                    assert(escaped_field_at(s@, j1 as int, e.event_id@));
                    assert(false);
                }
            }
            return None;
        },
    };
    proof {
        if canon is Some {
            let e = canon->Some_0;
            lemma_escape_pin(s@, j1 as int, idf@, e.event_id@);
        }
    }
    let j3 = match expect_lit(s, j2, ",\"code\":\"") {
        Some(j) => j,
        None => {
            proof {
                if canon is Some {
                    let e = canon->Some_0;
                    assert(j2 == p_id(e) + escape_text(e.event_id@).len() + 1);
                    assert(false);
                }
            }
            return None;
        },
    };
    let (codef, j4) = match scan_text(s, j3) {
        Some(p) => p,
        None => {
            proof {
                if canon is Some {
                    let e = canon->Some_0;
                    assert(j3 == p_code(e));
                    assert(escaped_field_at(s@, j3 as int, e.code@));
                    assert(false);
                }
            }
            return None;
        },
    };
    proof {
        if canon is Some {
            let e = canon->Some_0;
            assert(j3 == p_code(e));
            lemma_escape_pin(s@, j3 as int, codef@, e.code@);
        }
    }
    let j5 = match expect_lit(s, j4, ",\"accessed_at\":\"") {
        Some(j) => j,
        None => {
            proof {
                if canon is Some {
                    assert(false);
                }
            }
            return None;
        },
    };
    let (atf, j6) = match scan_text(s, j5) {
        Some(p) => p,
        None => {
            proof {
                if canon is Some {
                    let e = canon->Some_0;
                    assert(j5 == p_at(e));
                    assert(escaped_field_at(s@, j5 as int, e.accessed_at@));
                    assert(false);
                }
            }
            return None;
        },
    };
    proof {
        if canon is Some {
            let e = canon->Some_0;
            assert(j5 == p_at(e));
            lemma_escape_pin(s@, j5 as int, atf@, e.accessed_at@);
        }
    }
    let j7 = match expect_lit(s, j6, ",\"user_agent\":") {
        Some(j) => j,
        None => {
            proof {
                if canon is Some {
                    assert(false);
                }
            }
            return None;
        },
    };
    let (uaf, j8) = match parse_opt(s, j7) {
        Some(p) => p,
        None => {
            proof {
                if canon is Some {
                    let e = canon->Some_0;
                    assert(j7 == p_ua(e));
                    assert(false);
                }
            }
            return None;
        },
    };
    proof {
        if canon is Some {
            let e = canon->Some_0;
            assert(j7 == p_ua(e));
            lemma_opt_pins(s@, j7 as int, uaf, j8 as int, e.user_agent);
        }
    }
    let j9 = match expect_lit(s, j8, ",\"ip_address\":") {
        Some(j) => j,
        None => {
            proof {
                if canon is Some {
                    assert(false);
                }
            }
            return None;
        },
    };
    let (ipf, j10) = match parse_opt(s, j9) {
        Some(p) => p,
        None => {
            proof {
                if canon is Some {
                    let e = canon->Some_0;
                    assert(j9 == p_ip(e));
                    assert(false);
                }
            }
            return None;
        },
    };
    proof {
        if canon is Some {
            let e = canon->Some_0;
            assert(j9 == p_ip(e));
            lemma_opt_pins(s@, j9 as int, ipf, j10 as int, e.ip_address);
        }
    }
    let j11 = match expect_lit(s, j10, ",\"referer\":") {
        Some(j) => j,
        None => {
            proof {
                if canon is Some {
                    assert(false);
                }
            }
            return None;
        },
    };
    let (rff, j12) = match parse_opt(s, j11) {
        Some(p) => p,
        None => {
            proof {
                if canon is Some {
                    let e = canon->Some_0;
                    assert(j11 == p_ref(e));
                    assert(false);
                }
            }
            return None;
        },
    };
    proof {
        if canon is Some {
            let e = canon->Some_0;
            assert(j11 == p_ref(e));
            lemma_opt_pins(s@, j11 as int, rff, j12 as int, e.referer);
        }
    }
    let ev = AccessEvent::from_parts(idf, codef, atf, uaf, ipf, rff);
    // the parse fixes the fields; re-encoding and comparing settles that
    // the whole input is exactly this event's canonical message
    let enc = encode_access_event(&ev);
    if crate::strutil::str_eq(enc.as_str(), s) {
        proof {
            assert(s@ == event_json(ev));
            assert(canon is Some);
            assert forall|e: AccessEvent| s@ == event_json(e) implies ev.same_view(e) by {
                lemma_canonical_structure(s@, e);
                lemma_escape_pin(s@, j1 as int, ev.event_id@, e.event_id@);
                assert(j3 == p_code(e));
                lemma_escape_pin(s@, j3 as int, ev.code@, e.code@);
                assert(j5 == p_at(e));
                lemma_escape_pin(s@, j5 as int, ev.accessed_at@, e.accessed_at@);
                assert(j7 == p_ua(e));
                lemma_opt_pins(s@, j7 as int, ev.user_agent, j8 as int, e.user_agent);
                assert(j9 == p_ip(e));
                lemma_opt_pins(s@, j9 as int, ev.ip_address, j10 as int, e.ip_address);
                assert(j11 == p_ref(e));
                lemma_opt_pins(s@, j11 as int, ev.referer, j12 as int, e.referer);
            }
        }
        Some(ev)
    } else {
        proof {
            if canon is Some {
                let e = canon->Some_0;
                assert(ev.same_view(e));
                lemma_event_json_view(ev, e);
                assert(enc@ == s@);
                assert(false);
            }
        }
        None
    }
}

} // verus!
