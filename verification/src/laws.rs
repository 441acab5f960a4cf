//! Properties of the library that span several of its functions.

use vstd::prelude::*;
use crate::btree::insert::lookup_le;
use crate::btree::keys::{lemma_lex_eq, lex_order};
use crate::btree::node::{BNODE_LEAF, btype_of, nkeys_of, node_ok, node_view};
use crate::btree::tree::{first_root, path_ok, search_from};
use crate::editor::{InputEvent, next_quit};
use crate::resp::command::{get_reply, remove_all, removed_count};
use crate::resp::encode::{encode_spec, lemma_parse_encoded, wire_ok};
use crate::resp::frame::SpecFrame;
use crate::resp::parser::{spec_parse, SpecParse};
use crate::shell::builtin::{export_outcome, first_eq_from, not_identifier_message};
use crate::shell::runtime::{assoc_lookup, assoc_map, valid_identifier, var_value};
use crate::tools::comm::{comm_spec, text_order, text_order_from};
use crate::rlox::scanner::{is_ident_start, keyword, scan_step};
use crate::rlox::token::{SpecToken as LoxToken, TokenType};
use crate::rlox::ast::SpecExpr;
use crate::rlox::parser::{is_level_op, p_expression, p_level, p_rest};
use crate::shell::ast::{SpecRedirect, SpecWordPart};
use crate::shell::parser::{is_redirect_tok, p_redirect, p_word};
use crate::shell::token::SpecToken as ShellToken;
use crate::tools::cal::month_name_spec;
use crate::tools::wc::{count_nl, word_scan};
use crate::tools::tail::{Mode, TextUnit, lines_of, lines_text, split_nl, tail_spec, utf8_lossy};

verus! {

/// After `SET k v`, `GET k` answers `v`.
pub proof fn law_set_then_get(m: Map<Seq<char>, Seq<u8>>, k: Seq<char>, v: Seq<u8>)
    ensures
        get_reply(m.insert(k, v), k) == SpecFrame::Bulk(Some(v)),
{
}

/// `SET k v` leaves what `GET` answers for every other key.
pub proof fn law_set_keeps_others(m: Map<Seq<char>, Seq<u8>>, k: Seq<char>, v: Seq<u8>, k2: Seq<char>)
    requires
        k2 != k,
    ensures
        get_reply(m.insert(k, v), k2) == get_reply(m, k2),
{
}

/// After `DEL k`, `GET k` answers the null bulk string, and `DEL` counted
/// the key exactly when it was there.
pub proof fn law_del_then_get(m: Map<Seq<char>, Seq<u8>>, k: Seq<char>)
    ensures
        get_reply(remove_all(m, seq![k]), k) == SpecFrame::Bulk(None),
        removed_count(m, seq![k]) == if m.contains_key(k) {
            1nat
        } else {
            0nat
        },
{
    assert(seq![k].drop_last() =~= Seq::<Seq<char>>::empty());
    assert(seq![k].last() == k);
    assert(remove_all(m, Seq::<Seq<char>>::empty()) == m);
    assert(removed_count(m, Seq::<Seq<char>>::empty()) == 0);
}

/// After a shell variable is set, its value is the one set, whatever the
/// environment holds.
pub proof fn law_var_set_then_get(
    before: Seq<(String, String)>,
    after: Seq<(String, String)>,
    env: Seq<(String, String)>,
    name: Seq<char>,
    value: Seq<char>,
)
    requires
        assoc_map(after) == assoc_map(before).insert(name, value),
    ensures
        var_value(after, env, name) == Some(value),
{
    assert(assoc_map(after).contains_key(name));
    assert(assoc_lookup(after, name) is Some);
    assert(assoc_map(after)[name] == value);
    assert(assoc_lookup(after, name)->0 == value);
}

/// After a shell variable is unset, its value is the environment's.
pub proof fn law_var_unset_then_get(
    before: Seq<(String, String)>,
    after: Seq<(String, String)>,
    env: Seq<(String, String)>,
    name: Seq<char>,
)
    requires
        assoc_map(after) == assoc_map(before).remove(name),
    ensures
        var_value(after, env, name) == assoc_lookup(env, name),
{
    assert(!assoc_map(after).contains_key(name));
    assert(assoc_lookup(after, name) is None);
}

/// In a tree made by one insertion into an empty tree, a lookup of the
/// inserted key finds the value inserted with it.
pub proof fn law_first_insert_lookup(
    pages: Map<u64, Seq<u8>>,
    root: Seq<u8>,
    key: Seq<u8>,
    val: Seq<u8>,
    fuel: nat,
)
    requires
        node_ok(root),
        node_view(root) == first_root(key, val),
    ensures
        path_ok(pages, root, key, fuel),
        search_from(pages, root, key, fuel) == Some(val),
{
    let v = node_view(root);
    assert(v.keys.len() == 2);
    assert(nkeys_of(root) == 2);
    assert(btype_of(root) == BNODE_LEAF);
    lemma_lex_eq(v.keys[1], key);
    assert(v.keys[1] == key);
    assert(lex_order(v.keys[1], key) == 0);
    assert(lookup_le(v.keys, key) == 1);
}

/// Once the editor is to stop, no event makes it go on.
pub proof fn law_quit_is_final(e: InputEvent)
    ensures
        next_quit(true, e),
{
}

/// Parsing undoes encoding: the bytes of a frame, whatever follows them,
/// parse back to that frame, and exactly its own bytes are consumed. This
/// holds of every frame whose simple strings and errors hold no carriage
/// return directly followed by a line feed and whose integers and lengths
/// fit in an `i64`.
pub proof fn law_parse_after_encode(f: SpecFrame, rest: Seq<u8>)
    requires
        wire_ok(f),
    ensures
        spec_parse(encode_spec(f) + rest) == SpecParse::Complete(f, encode_spec(f).len() as int),
{
    lemma_parse_encoded(f, rest);
}

/// In `name=value`, the first `=` is the one after the name when the name
/// holds none.
proof fn lemma_first_eq(name: Seq<char>, value: Seq<char>, i: int)
    requires
        0 <= i <= name.len(),
        forall|t: int| 0 <= t < name.len() ==> #[trigger] name[t] != '=',
    ensures
        first_eq_from(name + seq!['='] + value, i) == Some(name.len() as int),
    decreases name.len() - i,
{
    let s = name + seq!['='] + value;
    if i < name.len() {
        assert(s[i] == name[i]);
        lemma_first_eq(name, value, i + 1);
    } else {
        assert(s[i] == '=');
    }
}

/// `export name=value` with a valid name binds the name to the value and
/// marks it exported; with a name that is not valid it changes nothing and
/// reports the name.
pub proof fn law_export_assign(
    name: Seq<char>,
    value: Seq<char>,
    vars: Map<Seq<char>, Seq<char>>,
    exp: Set<Seq<char>>,
    env: Seq<(String, String)>,
)
    requires
        forall|t: int| 0 <= t < name.len() ==> #[trigger] name[t] != '=',
    ensures
        valid_identifier(name) ==> export_outcome(seq![name + seq!['='] + value], vars, exp, env)
            == (vars.insert(name, value), exp.insert(name), None::<Seq<char>>),
        !valid_identifier(name) ==> export_outcome(seq![name + seq!['='] + value], vars, exp, env)
            == (vars, exp, Some(not_identifier_message(name))),
{
    let a = name + seq!['='] + value;
    lemma_first_eq(name, value, 0);
    assert(a.subrange(0, name.len() as int) =~= name);
    assert(a.subrange(name.len() as int + 1, a.len() as int) =~= value);
    let none = Seq::<Seq<char>>::empty();
    assert(seq![a].drop_first() =~= none);
    assert(export_outcome(none, vars.insert(name, value), exp.insert(name), env) == (
        vars.insert(name, value),
        exp.insert(name),
        None::<Seq<char>>,
    ));
}


/// Joining the pieces of a text between line feeds, each but the last
/// followed by a line feed, gives the text back.
proof fn lemma_split_join(s: Seq<char>)
    ensures
        split_nl(s).len() >= 1,
        lines_text(split_nl(s).drop_last()) + split_nl(s).last() == s,
    decreases s.len(),
{
    reveal_strlit("\n");
    if s.len() > 0 {
        let t = s.drop_last();
        lemma_split_join(t);
        let p = split_nl(t);
        if s.last() == '\n' {
            assert(split_nl(s) == p.push(Seq::<char>::empty()));
            assert(split_nl(s).drop_last() =~= p);
            assert(lines_text(p) == lines_text(p.drop_last()) + p.last() + "\n"@);
            assert(s =~= t + "\n"@);
        } else {
            let q = p.update(p.len() - 1, p.last().push(s.last()));
            assert(split_nl(s) == q);
            assert(q.drop_last() =~= p.drop_last());
            assert(s =~= t.push(s.last()));
        }
    } else {
        assert(split_nl(s).drop_last() =~= Seq::<Seq<char>>::empty());
    }
}

/// The lines of a text that is empty or ends with a line feed, each
/// followed by a line feed, give the text back: so `tail -n +1` prints such
/// a file's text unchanged.
pub proof fn law_tail_whole_text(data: Seq<u8>)
    requires
        utf8_lossy(data).len() == 0 || utf8_lossy(data).last() == '\n',
    ensures
        lines_text(lines_of(utf8_lossy(data))) == utf8_lossy(data),
        tail_spec(data, Mode::FromStart(1), TextUnit::Lines) == utf8_lossy(data),
{
    let s = utf8_lossy(data);
    lemma_split_join(s);
    let p = split_nl(s);
    if s.len() > 0 {
        assert(p.last().len() == 0);
    }
    assert(p.last() =~= Seq::<char>::empty());
    assert(lines_text(p.drop_last()) + p.last() =~= lines_text(p.drop_last()));
    let ls = lines_of(s);
    assert(ls.subrange(0, ls.len() as int) =~= ls);
}

/// Asking for the last `n` lines (or bytes) of a file that has no more
/// than `n` prints the same as printing it from its first line (or byte)
/// on.
pub proof fn law_tail_last_covers_all(data: Seq<u8>, n: usize, unit: TextUnit)
    requires
        n >= 1,
        unit == TextUnit::Lines ==> lines_of(utf8_lossy(data)).len() <= n,
        unit == TextUnit::Bytes ==> data.len() <= n,
    ensures
        tail_spec(data, Mode::Last(n), unit) == tail_spec(data, Mode::FromStart(1), unit),
{
}

/// A text is in the same place as itself, from any position on.
proof fn lemma_text_order_self(a: Seq<char>, i: int)
    requires
        0 <= i,
    ensures
        text_order_from(a, a, i) == 0,
    decreases a.len() - i,
{
    if i < a.len() {
        lemma_text_order_self(a, i + 1);
    }
}

/// `comm` on a file and itself prints every line in the third column
/// (nothing at all when that column is omitted).
pub proof fn law_comm_same_file(
    f: Seq<Seq<char>>,
    i: int,
    omit1: bool,
    omit2: bool,
    omit3: bool,
    d1: Seq<char>,
    d2: Seq<char>,
)
    requires
        0 <= i <= f.len(),
    ensures
        comm_spec(f, f, i, i, omit1, omit2, omit3, d1, d2) == if omit3 {
            Seq::<Seq<char>>::empty()
        } else {
            f.subrange(i, f.len() as int).map_values(|l: Seq<char>| d1 + d2 + l)
        },
    decreases f.len() - i,
{
    if i < f.len() {
        lemma_text_order_self(f[i], 0);
        assert(text_order(f[i], f[i]) == 0);
        law_comm_same_file(f, i + 1, omit1, omit2, omit3, d1, d2);
        if !omit3 {
            assert(f.subrange(i, f.len() as int).map_values(|l: Seq<char>| d1 + d2 + l) =~= seq![
                d1 + d2 + f[i],
            ] + f.subrange(i + 1, f.len() as int).map_values(|l: Seq<char>| d1 + d2 + l));
        } else {
            assert(Seq::<Seq<char>>::empty() + Seq::<Seq<char>>::empty() =~= Seq::<Seq<char>>::empty());
        }
    } else {
        if !omit3 {
            assert(f.subrange(i, f.len() as int).map_values(|l: Seq<char>| d1 + d2 + l) =~= Seq::<
                Seq<char>,
            >::empty());
        }
        assert(Seq::<Seq<char>>::empty() + Seq::<Seq<char>>::empty() =~= Seq::<Seq<char>>::empty());
    }
}


/// Bytes after a complete frame are never read: the same frame of the same
/// length comes back from the frame's own bytes, and from them followed by
/// anything at all.
pub proof fn law_parse_ignores_rest(b: Seq<u8>, extra: Seq<u8>)
    requires
        spec_parse(b) is Complete,
    ensures
        0 < spec_parse(b)->Complete_1 <= b.len(),
        spec_parse(b + extra) == spec_parse(b),
        spec_parse(b.take(spec_parse(b)->Complete_1)) == spec_parse(b),
{
    let n = spec_parse(b)->Complete_1;
    crate::resp::parser::lemma_complete_bounds(b);
    assert((b + extra).take(n) =~= b.take(n));
    crate::resp::parser::lemma_parse_local(b, b + extra);
    assert(b.take(n).take(n) =~= b.take(n));
    crate::resp::parser::lemma_parse_local(b, b.take(n));
}

/// A proper prefix of a complete frame is never taken for a frame or an
/// error: more bytes are asked for.
pub proof fn law_parse_prefix_incomplete(b: Seq<u8>, m: int)
    requires
        spec_parse(b) is Complete,
        0 <= m < spec_parse(b)->Complete_1,
    ensures
        spec_parse(b.take(m)) is Incomplete,
{
    crate::resp::parser::lemma_parse_cut(b, m);
}


// ------------------------------------------------------------------------
// Month names
// ------------------------------------------------------------------------

/// The English names of the months, January first.
pub open spec fn english_months() -> Seq<Seq<char>> {
    seq![
        "January"@,
        "February"@,
        "March"@,
        "April"@,
        "May"@,
        "June"@,
        "July"@,
        "August"@,
        "September"@,
        "October"@,
        "November"@,
        "December"@,
    ]
}

/// Month `m` is called by its English name, so no two months share one.
pub proof fn law_month_names(m: u8, m2: u8)
    requires
        1 <= m <= 12,
        1 <= m2 <= 12,
    ensures
        month_name_spec(m) == english_months()[m - 1],
        m != m2 ==> month_name_spec(m) != month_name_spec(m2),
{
    reveal_strlit("January");
    reveal_strlit("February");
    reveal_strlit("March");
    reveal_strlit("April");
    reveal_strlit("May");
    reveal_strlit("June");
    reveal_strlit("July");
    reveal_strlit("August");
    reveal_strlit("September");
    reveal_strlit("October");
    reveal_strlit("November");
    reveal_strlit("December");
    let a = month_name_spec(m);
    let b = month_name_spec(m2);
    if m != m2 {
        assert(a != b) by {
            if a == b {
                assert(a.len() == b.len());
                assert(a[0] == b[0]);
                if a.len() > 1 {
                    assert(a[1] == b[1]);
                }
                if a.len() > 2 {
                    assert(a[2] == b[2]);
                }
            }
        }
    }
}

// ------------------------------------------------------------------------
// Word counts
// ------------------------------------------------------------------------

/// ASCII whitespace as `u8::is_ascii_whitespace` documents it: space,
/// horizontal tab, line feed, form feed and carriage return.
pub open spec fn ascii_whitespace(b: u8) -> bool {
    b == 0x20 || b == 0x09 || b == 0x0A || b == 0x0C || b == 0x0D
}

/// Putting a whitespace byte where a space was changes no count, and
/// neither does putting any other byte where a letter was.
pub proof fn law_word_separators(x: Seq<u8>, y: Seq<u8>, b: u8, in_word: bool)
    ensures
        ascii_whitespace(b) ==> word_scan(x.push(b) + y, in_word) == word_scan(x.push(32) + y, in_word),
        !ascii_whitespace(b) ==> word_scan(x.push(b) + y, in_word) == word_scan(x.push(97) + y, in_word),
    decreases y.len(),
{
    if y.len() == 0 {
        assert(x.push(b) + y =~= x.push(b));
        assert(x.push(32) + y =~= x.push(32));
        assert(x.push(97) + y =~= x.push(97));
        assert(x.push(b).drop_last() =~= x);
        assert(x.push(32).drop_last() =~= x);
        assert(x.push(97).drop_last() =~= x);
    } else {
        law_word_separators(x, y.drop_last(), b, in_word);
        assert((x.push(b) + y).drop_last() =~= x.push(b) + y.drop_last());
        assert((x.push(32) + y).drop_last() =~= x.push(32) + y.drop_last());
        assert((x.push(97) + y).drop_last() =~= x.push(97) + y.drop_last());
    }
}

/// Two letters with one byte between them make two words exactly when
/// that byte is ASCII whitespace.
pub proof fn law_word_split_by(b: u8)
    ensures
        word_scan(seq![97u8, b, 97u8], false).0 == 2 <==> ascii_whitespace(b),
{
    let s = seq![97u8, b, 97u8];
    assert(s.drop_last() =~= seq![97u8, b]);
    assert(seq![97u8, b].drop_last() =~= seq![97u8]);
    assert(seq![97u8].drop_last() =~= Seq::<u8>::empty());
    assert(word_scan(Seq::<u8>::empty(), false) == (0nat, false));
    assert(word_scan(seq![97u8], false) == (1nat, true));
    let m = word_scan(seq![97u8, b], false);
    assert(m == if ascii_whitespace(b) { (1nat, false) } else { (1nat, true) });
    assert(seq![97u8, b].last() == b);
    assert(s.last() == 97u8);
}

// ------------------------------------------------------------------------
// Redirections
// ------------------------------------------------------------------------

/// The stream a redirection operator acts on (0 input, 1 output, 2 error)
/// and whether it appends: `<` is input; `>` and `>>` output; `2>` and
/// `2>>` error; `>>` and `2>>` append.
pub open spec fn operator_action(t: ShellToken) -> (int, bool) {
    match t {
        ShellToken::RedirectIn => (0, false),
        ShellToken::RedirectOut => (1, false),
        ShellToken::RedirectAppend => (1, true),
        ShellToken::RedirectErr => (2, false),
        _ => (2, true),
    }
}

/// What a parsed redirection does: the stream, whether it appends, and
/// the target word.
pub open spec fn redirect_action(r: SpecRedirect) -> Option<(int, bool, Seq<SpecWordPart>)> {
    match r {
        SpecRedirect::Absent => None,
        SpecRedirect::Input(w) => Some((0, false, w)),
        SpecRedirect::Output(w) => Some((1, false, w)),
        SpecRedirect::Append(w) => Some((1, true, w)),
        SpecRedirect::ErrorOutput(w) => Some((2, false, w)),
        SpecRedirect::ErrorAppend(w) => Some((2, true, w)),
    }
}

/// A redirection operator followed by a word parses to a redirection of
/// the operator's stream, in its mode, to that word.
pub proof fn law_redirect_operator(toks: Seq<ShellToken>, pos: int)
    requires
        0 <= pos < toks.len(),
        is_redirect_tok(toks[pos]),
        p_word(toks, pos + 1) is Ok,
    ensures
        p_redirect(toks, pos) matches Ok((r, e)) && e == p_word(toks, pos + 1)->Ok_0.1 && redirect_action(r)
            == Some(
            (operator_action(toks[pos]).0, operator_action(toks[pos]).1, p_word(toks, pos + 1)->Ok_0.0),
        ),
{
}


// ------------------------------------------------------------------------
// Reserved words of Lox
// ------------------------------------------------------------------------

/// The reserved words of Lox, each with the token kind it scans to.
pub open spec fn lox_reserved() -> Seq<(Seq<char>, TokenType)> {
    seq![
        (seq!['a', 'n', 'd'], TokenType::And),
        (seq!['c', 'l', 'a', 's', 's'], TokenType::Class),
        (seq!['e', 'l', 's', 'e'], TokenType::Else),
        (seq!['f', 'a', 'l', 's', 'e'], TokenType::False),
        (seq!['f', 'o', 'r'], TokenType::For),
        (seq!['f', 'u', 'n'], TokenType::Fun),
        (seq!['i', 'f'], TokenType::If),
        (seq!['n', 'i', 'l'], TokenType::Nil),
        (seq!['o', 'r'], TokenType::Or),
        (seq!['p', 'r', 'i', 'n', 't'], TokenType::Print),
        (seq!['r', 'e', 't', 'u', 'r', 'n'], TokenType::Return),
        (seq!['s', 'u', 'p', 'e', 'r'], TokenType::Super),
        (seq!['t', 'h', 'i', 's'], TokenType::This),
        (seq!['t', 'r', 'u', 'e'], TokenType::True),
        (seq!['v', 'a', 'r'], TokenType::Var),
        (seq!['w', 'h', 'i', 'l', 'e'], TokenType::While),
    ]
}

/// The kinds the reserved words scan to are the keyword kinds, each once.
proof fn lemma_keyword_table(s: Seq<char>)
    ensures
        forall|i: int| 0 <= i < 16 && s == #[trigger] lox_reserved()[i].0 ==> keyword(s) == Some(lox_reserved()[i].1),
        (forall|i: int| 0 <= i < 16 ==> s != #[trigger] lox_reserved()[i].0) ==> keyword(s) is None,
{
    let t = lox_reserved();
    assert(t.len() == 16);
    assert forall|i: int| 0 <= i < 16 && s == #[trigger] t[i].0 implies keyword(s) == Some(t[i].1) by {
        assert(s.len() == t[i].0.len());
        if s.len() > 0 {
            assert(s[0] == t[i].0[0]);
        }
        if s.len() > 1 {
            assert(s[1] == t[i].0[1]);
        }
        if s.len() > 2 {
            assert(s[2] == t[i].0[2]);
        }
    }
    if forall|i: int| 0 <= i < 16 ==> s != #[trigger] t[i].0 {
        assert(s != t[0].0);
        assert(s != t[1].0);
        assert(s != t[2].0);
        assert(s != t[3].0);
        assert(s != t[4].0);
        assert(s != t[5].0);
        assert(s != t[6].0);
        assert(s != t[7].0);
        assert(s != t[8].0);
        assert(s != t[9].0);
        assert(s != t[10].0);
        assert(s != t[11].0);
        assert(s != t[12].0);
        assert(s != t[13].0);
        assert(s != t[14].0);
        assert(s != t[15].0);
    }
}

/// A word scans to the keyword kind of the reserved word it spells, and
/// to an identifier when it spells none.
pub proof fn law_reserved_words(src: Seq<char>, pos: int, line: int)
    requires
        0 <= pos < src.len(),
        is_ident_start(src[pos]),
    ensures
        scan_step(src, pos, line) matches Ok((Some(tok), e, l)) && l == line && tok.lexeme
            == src.subrange(pos, e) && (forall|i: int|
            0 <= i < 16 && tok.lexeme == #[trigger] lox_reserved()[i].0 ==> tok.ty == lox_reserved()[i].1)
            && ((forall|i: int| 0 <= i < 16 ==> tok.lexeme != #[trigger] lox_reserved()[i].0) ==> tok.ty
            == TokenType::Identifier),
{
    let e = crate::rlox::scanner::ident_end(src, pos + 1);
    lemma_keyword_table(src.subrange(pos, e));
}


// ------------------------------------------------------------------------
// Operator precedence in Lox
// ------------------------------------------------------------------------

/// How loosely a binary operator binds, as the grammar orders its levels:
/// `*` and `/` tightest (1), then `+` and `-` (2), the comparisons (3),
/// and `==` and `!=` loosest (4); 0 for a token that is no binary
/// operator.
pub open spec fn looseness(ty: TokenType) -> nat {
    if ty == TokenType::Star || ty == TokenType::Slash {
        1
    } else if ty == TokenType::Plus || ty == TokenType::Minus {
        2
    } else if ty == TokenType::Less || ty == TokenType::LessEqual || ty == TokenType::Greater || ty
        == TokenType::GreaterEqual {
        3
    } else if ty == TokenType::EqualEqual || ty == TokenType::BangEqual {
        4
    } else {
        0
    }
}

/// The expression a number token stands for.
pub open spec fn number_expr(t: LoxToken) -> SpecExpr {
    SpecExpr::Literal(t.literal->0)
}

/// `a o1 b o2 c`: three numbers and two binary operators, then the end.
pub open spec fn three_numbers(t: Seq<LoxToken>) -> bool {
    &&& t.len() == 6
    &&& t[0].ty == TokenType::Number && t[0].literal is Some
    &&& t[2].ty == TokenType::Number && t[2].literal is Some
    &&& t[4].ty == TokenType::Number && t[4].literal is Some
    &&& looseness(t[1].ty) >= 1
    &&& looseness(t[3].ty) >= 1
    &&& t[5].ty == TokenType::Eof
}

proof fn lemma_level_looseness(l: nat, ty: TokenType)
    requires
        1 <= l <= 4,
    ensures
        is_level_op(l, ty) <==> looseness(ty) == l,
{
}

/// A number followed by no operator of the levels up to `lvl` is the
/// whole operand at those levels.
proof fn lemma_number_operand(t: Seq<LoxToken>, p: int, lvl: nat)
    requires
        0 <= p,
        p + 1 < t.len(),
        t[p].ty == TokenType::Number,
        t[p].literal is Some,
        lvl <= 4,
        looseness(t[p + 1].ty) == 0 || looseness(t[p + 1].ty) > lvl,
    ensures
        p_level(t, p, lvl) == Ok::<(SpecExpr, int), crate::rlox::error::SpecParseError>((number_expr(t[p]), p + 1)),
    decreases lvl,
{
    if lvl > 0 {
        lemma_number_operand(t, p, (lvl - 1) as nat);
        lemma_level_looseness(lvl, t[p + 1].ty);
        assert(!is_level_op(lvl, t[p + 1].ty));
        assert(p_rest(t, number_expr(t[p]), p + 1, lvl) == Ok::<(SpecExpr, int), crate::rlox::error::SpecParseError>((number_expr(t[p]), p + 1)));
    } else {
        assert(!is_level_op(0, t[p].ty));
        assert(crate::rlox::parser::p_primary(t, p) == Ok::<(SpecExpr, int), crate::rlox::error::SpecParseError>((number_expr(t[p]), p + 1)));
    }
}

/// The end of the tokens stops every level.
proof fn lemma_tail_rest(t: Seq<LoxToken>, e: SpecExpr, lvl: nat)
    requires
        t.len() == 6,
        t[5].ty == TokenType::Eof,
        1 <= lvl <= 4,
    ensures
        p_rest(t, e, 5, lvl) == Ok::<(SpecExpr, int), crate::rlox::error::SpecParseError>((e, 5)),
{
    lemma_level_looseness(lvl, t[5].ty);
}

/// Parsing `b o2 c` from position 2.
proof fn lemma_second_operand(t: Seq<LoxToken>, lvl: nat)
    requires
        three_numbers(t),
        lvl <= 4,
    ensures
        p_level(t, 2, lvl) == Ok::<(SpecExpr, int), crate::rlox::error::SpecParseError>(
            if lvl < looseness(t[3].ty) {
                (number_expr(t[2]), 3)
            } else {
                (SpecExpr::Binary(Box::new(number_expr(t[2])), t[3], Box::new(number_expr(t[4]))), 5)
            },
        ),
    decreases lvl,
{
    let r2 = looseness(t[3].ty);
    let b = number_expr(t[2]);
    let c = number_expr(t[4]);
    let bc = SpecExpr::Binary(Box::new(b), t[3], Box::new(c));
    if lvl < r2 {
        lemma_number_operand(t, 2, lvl);
    } else {
        lemma_second_operand(t, (lvl - 1) as nat);
        lemma_level_looseness(lvl, t[3].ty);
        lemma_tail_rest(t, bc, lvl);
        if lvl == r2 {
            lemma_number_operand(t, 4, (lvl - 1) as nat);
            assert(p_level(t, 2, (lvl - 1) as nat) == Ok::<(SpecExpr, int), crate::rlox::error::SpecParseError>((b, 3)));
            assert(is_level_op(lvl, t[3].ty));
            assert(p_rest(t, b, 3, lvl) == Ok::<(SpecExpr, int), crate::rlox::error::SpecParseError>((bc, 5)));
        } else {
            assert(p_level(t, 2, (lvl - 1) as nat) == Ok::<(SpecExpr, int), crate::rlox::error::SpecParseError>((bc, 5)));
        }
    }
}

/// What parsing `a o1 b o2 c` gives at level `lvl`.
pub open spec fn parsed_at(t: Seq<LoxToken>, lvl: nat) -> (SpecExpr, int) {
    let a = number_expr(t[0]);
    let b = number_expr(t[2]);
    let c = number_expr(t[4]);
    let r1 = looseness(t[1].ty);
    let r2 = looseness(t[3].ty);
    if lvl < r1 {
        (a, 1)
    } else if r2 < r1 {
        (SpecExpr::Binary(Box::new(a), t[1], Box::new(SpecExpr::Binary(Box::new(b), t[3], Box::new(c)))), 5)
    } else if lvl < r2 {
        (SpecExpr::Binary(Box::new(a), t[1], Box::new(b)), 3)
    } else {
        (SpecExpr::Binary(Box::new(SpecExpr::Binary(Box::new(a), t[1], Box::new(b))), t[3], Box::new(c)), 5)
    }
}

proof fn lemma_first_operand(t: Seq<LoxToken>, lvl: nat)
    requires
        three_numbers(t),
        lvl <= 4,
    ensures
        p_level(t, 0, lvl) == Ok::<(SpecExpr, int), crate::rlox::error::SpecParseError>(parsed_at(t, lvl)),
    decreases lvl,
{
    let r1 = looseness(t[1].ty);
    let r2 = looseness(t[3].ty);
    let a = number_expr(t[0]);
    let b = number_expr(t[2]);
    let c = number_expr(t[4]);
    let bc = SpecExpr::Binary(Box::new(b), t[3], Box::new(c));
    let ab = SpecExpr::Binary(Box::new(a), t[1], Box::new(b));
    let abc = SpecExpr::Binary(Box::new(ab), t[3], Box::new(c));
    let a_bc = SpecExpr::Binary(Box::new(a), t[1], Box::new(bc));
    if lvl < r1 {
        lemma_number_operand(t, 0, lvl);
    } else {
        lemma_first_operand(t, (lvl - 1) as nat);
        lemma_level_looseness(lvl, t[1].ty);
        lemma_level_looseness(lvl, t[3].ty);
        let prev = parsed_at(t, (lvl - 1) as nat);
        assert(p_level(t, 0, (lvl - 1) as nat) == Ok::<(SpecExpr, int), crate::rlox::error::SpecParseError>(prev));
        if lvl == r1 {
            assert(prev == (a, 1int));
            assert(is_level_op(lvl, t[1].ty));
            lemma_second_operand(t, (lvl - 1) as nat);
            if r2 < r1 {
                lemma_tail_rest(t, a_bc, lvl);
                assert(p_rest(t, a, 1, lvl) == Ok::<(SpecExpr, int), crate::rlox::error::SpecParseError>((a_bc, 5)));
            } else if r2 == r1 {
                lemma_number_operand(t, 4, (lvl - 1) as nat);
                lemma_tail_rest(t, abc, lvl);
                assert(p_rest(t, ab, 3, lvl) == Ok::<(SpecExpr, int), crate::rlox::error::SpecParseError>((abc, 5)));
                assert(p_rest(t, a, 1, lvl) == Ok::<(SpecExpr, int), crate::rlox::error::SpecParseError>((abc, 5)));
            } else {
                assert(!is_level_op(lvl, t[3].ty));
                assert(p_rest(t, ab, 3, lvl) == Ok::<(SpecExpr, int), crate::rlox::error::SpecParseError>((ab, 3)));
                assert(p_rest(t, a, 1, lvl) == Ok::<(SpecExpr, int), crate::rlox::error::SpecParseError>((ab, 3)));
            }
        } else if r2 < r1 {
            lemma_tail_rest(t, a_bc, lvl);
        } else if lvl < r2 {
            assert(prev == (ab, 3int));
            assert(!is_level_op(lvl, t[3].ty));
            assert(p_rest(t, ab, 3, lvl) == Ok::<(SpecExpr, int), crate::rlox::error::SpecParseError>((ab, 3)));
        } else if lvl == r2 {
            assert(prev == (ab, 3int));
            lemma_number_operand(t, 4, (lvl - 1) as nat);
            lemma_tail_rest(t, abc, lvl);
            assert(p_rest(t, ab, 3, lvl) == Ok::<(SpecExpr, int), crate::rlox::error::SpecParseError>((abc, 5)));
        } else {
            lemma_tail_rest(t, abc, lvl);
        }
    }
}

/// In `a o1 b o2 c`, the operator that binds tighter takes its operands
/// first; of two that bind alike, the left one does:
/// `1 + 6 / 3` is `1 + (6 / 3)` and `1 - 2 - 3` is `(1 - 2) - 3`.
pub proof fn law_precedence(t: Seq<LoxToken>)
    requires
        three_numbers(t),
    ensures
        p_expression(t, 0) == Ok::<(SpecExpr, int), crate::rlox::error::SpecParseError>(
            if looseness(t[3].ty) < looseness(t[1].ty) {
                (
                    SpecExpr::Binary(
                        Box::new(number_expr(t[0])),
                        t[1],
                        Box::new(SpecExpr::Binary(Box::new(number_expr(t[2])), t[3], Box::new(number_expr(t[4])))),
                    ),
                    5,
                )
            } else {
                (
                    SpecExpr::Binary(
                        Box::new(SpecExpr::Binary(Box::new(number_expr(t[0])), t[1], Box::new(number_expr(t[2])))),
                        t[3],
                        Box::new(number_expr(t[4])),
                    ),
                    5,
                )
            },
        ),
{
    lemma_first_operand(t, 4);
}


/// `u a o b`: a prefix `!` or `-`, a number, a binary operator, a number,
/// then the end.
pub open spec fn prefixed_pair(t: Seq<LoxToken>) -> bool {
    &&& t.len() == 5
    &&& (t[0].ty == TokenType::Bang || t[0].ty == TokenType::Minus)
    &&& t[1].ty == TokenType::Number && t[1].literal is Some
    &&& looseness(t[2].ty) >= 1
    &&& t[3].ty == TokenType::Number && t[3].literal is Some
    &&& t[4].ty == TokenType::Eof
}

proof fn lemma_prefixed(t: Seq<LoxToken>, lvl: nat)
    requires
        prefixed_pair(t),
        lvl <= 4,
    ensures
        p_level(t, 0, lvl) == Ok::<(SpecExpr, int), crate::rlox::error::SpecParseError>(
            if lvl < looseness(t[2].ty) {
                (SpecExpr::Unary(t[0], Box::new(number_expr(t[1]))), 2)
            } else {
                (
                    SpecExpr::Binary(
                        Box::new(SpecExpr::Unary(t[0], Box::new(number_expr(t[1])))),
                        t[2],
                        Box::new(number_expr(t[3])),
                    ),
                    4,
                )
            },
        ),
    decreases lvl,
{
    let r = looseness(t[2].ty);
    let u = SpecExpr::Unary(t[0], Box::new(number_expr(t[1])));
    let ub = SpecExpr::Binary(Box::new(u), t[2], Box::new(number_expr(t[3])));
    if lvl == 0 {
        assert(is_level_op(0, t[0].ty));
        lemma_number_operand(t, 1, 0);
    } else {
        lemma_prefixed(t, (lvl - 1) as nat);
        lemma_level_looseness(lvl, t[2].ty);
        lemma_level_looseness(lvl, t[4].ty);
        if lvl < r {
            assert(p_rest(t, u, 2, lvl) == Ok::<(SpecExpr, int), crate::rlox::error::SpecParseError>((u, 2)));
        } else if lvl == r {
            lemma_number_operand(t, 3, (lvl - 1) as nat);
            assert(p_rest(t, ub, 4, lvl) == Ok::<(SpecExpr, int), crate::rlox::error::SpecParseError>((ub, 4)));
            assert(p_rest(t, u, 2, lvl) == Ok::<(SpecExpr, int), crate::rlox::error::SpecParseError>((ub, 4)));
        } else {
            assert(p_rest(t, ub, 4, lvl) == Ok::<(SpecExpr, int), crate::rlox::error::SpecParseError>((ub, 4)));
        }
    }
}

/// A prefix `!` or `-` binds tighter than every binary operator: `-a * b`
/// is `(-a) * b`.
pub proof fn law_prefix_binds_tightest(t: Seq<LoxToken>)
    requires
        prefixed_pair(t),
    ensures
        p_expression(t, 0) == Ok::<(SpecExpr, int), crate::rlox::error::SpecParseError>(
            (
                SpecExpr::Binary(
                    Box::new(SpecExpr::Unary(t[0], Box::new(number_expr(t[1])))),
                    t[2],
                    Box::new(number_expr(t[3])),
                ),
                4,
            ),
        ),
{
    lemma_prefixed(t, 4);
}


/// The one-character tokens of Lox, each with the kind named after it.
pub open spec fn lox_punctuation() -> Seq<(char, TokenType)> {
    seq![
        ('(', TokenType::LeftParen),
        (')', TokenType::RightParen),
        ('{', TokenType::LeftBrace),
        ('}', TokenType::RightBrace),
        (',', TokenType::Comma),
        ('.', TokenType::Dot),
        ('-', TokenType::Minus),
        ('+', TokenType::Plus),
        (';', TokenType::Semicolon),
        ('*', TokenType::Star),
    ]
}

/// Each punctuation character scans to one token of its own kind.
pub proof fn law_punctuation(src: Seq<char>, pos: int, line: int, i: int)
    requires
        0 <= pos < src.len(),
        0 <= i < 10,
        src[pos] == lox_punctuation()[i].0,
    ensures
        scan_step(src, pos, line) == Ok::<(Option<LoxToken>, int, int), crate::rlox::error::ScanError>(
            (
                Some(
                    LoxToken {
                        ty: lox_punctuation()[i].1,
                        lexeme: seq![src[pos]],
                        literal: None,
                        line: line as nat,
                    },
                ),
                pos + 1,
                line,
            ),
        ),
{
    assert(src.subrange(pos, pos + 1) =~= seq![src[pos]]);
}

/// The operators of one or two characters: with `=` after it, `!`, `=`,
/// `<` and `>` make `!=`, `==`, `<=` and `>=`; alone, `!`, `=`, `<` and `>`.
pub open spec fn lox_operators() -> Seq<(char, TokenType, TokenType)> {
    seq![
        ('!', TokenType::BangEqual, TokenType::Bang),
        ('=', TokenType::EqualEqual, TokenType::Equal),
        ('<', TokenType::LessEqual, TokenType::Less),
        ('>', TokenType::GreaterEqual, TokenType::Greater),
    ]
}

/// An operator character scans to its two-character kind when `=`
/// follows, and to its one-character kind otherwise.
pub proof fn law_operators(src: Seq<char>, pos: int, line: int, i: int)
    requires
        0 <= pos < src.len(),
        0 <= i < 4,
        src[pos] == lox_operators()[i].0,
    ensures
        scan_step(src, pos, line) matches Ok((Some(tok), e, l)) && l == line && tok.lexeme == src.subrange(
            pos,
            e,
        ) && if pos + 1 < src.len() && src[pos + 1] == '=' {
            e == pos + 2 && tok.ty == lox_operators()[i].1
        } else {
            e == pos + 1 && tok.ty == lox_operators()[i].2
        },
{
}

/// Lines are counted by line feeds: one more for a line feed, none for any
/// other byte.
pub proof fn law_line_feeds(x: Seq<u8>, b: u8, y: Seq<u8>)
    ensures
        count_nl(x.push(b) + y) == count_nl(x + y) + if b == 0x0A {
            1nat
        } else {
            0nat
        },
    decreases y.len(),
{
    if y.len() == 0 {
        assert(x.push(b) + y =~= x.push(b));
        assert(x + y =~= x);
        assert(x.push(b).drop_last() =~= x);
    } else {
        law_line_feeds(x, b, y.drop_last());
        assert((x.push(b) + y).drop_last() =~= x.push(b) + y.drop_last());
        assert((x + y).drop_last() =~= x + y.drop_last());
    }
}

/// The columns of a month are headed by the two-letter English day names,
/// Sunday first.
pub proof fn law_day_labels()
    ensures
        crate::tools::cal::day_labels() == seq![
            seq!['S', 'u'],
            seq!['M', 'o'],
            seq!['T', 'u'],
            seq!['W', 'e'],
            seq!['T', 'h'],
            seq!['F', 'r'],
            seq!['S', 'a'],
        ],
{
    reveal_strlit("Su");
    reveal_strlit("Mo");
    reveal_strlit("Tu");
    reveal_strlit("We");
    reveal_strlit("Th");
    reveal_strlit("Fr");
    reveal_strlit("Sa");
    assert("Su"@ =~= seq!['S', 'u']);
    assert("Mo"@ =~= seq!['M', 'o']);
    assert("Tu"@ =~= seq!['T', 'u']);
    assert("We"@ =~= seq!['W', 'e']);
    assert("Th"@ =~= seq!['T', 'h']);
    assert("Fr"@ =~= seq!['F', 'r']);
    assert("Sa"@ =~= seq!['S', 'a']);
    assert(crate::tools::cal::day_labels() =~= seq![
        seq!['S', 'u'],
        seq!['M', 'o'],
        seq!['T', 'u'],
        seq!['W', 'e'],
        seq!['T', 'h'],
        seq!['F', 'r'],
        seq!['S', 'a'],
    ]);
}

} // verus!
