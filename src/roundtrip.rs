//! What the parser recovers from a header that the signer wrote.

use vstd::prelude::*;
use crate::text::{
    all_digits, dec_value, digit_value, find, find_from, is_digit, is_ws, parse_uint, split, trim,
    trim_end, trim_start,
};
use crate::sign::{dec_text, digit_char, joined, param_text};
use crate::header::{
    apply_param, apply_params, default_fields, initial_view, method_field, nobody_field,
    parse_header, path_field, residual, scheme, HeaderView,
};
use crate::crypto::{b64url_decoding, ed25519_verifies, is_public_key, is_url_safe_char};
use crate::canonical::canonical;
use crate::sign::signed_values;
use crate::verify::{check_outcome, in_window, is_pseudo_field, pseudo_value, Error};

verus! {

/// The characters of `s` are none of `c`.
pub open spec fn lacks(s: Seq<char>, c: char) -> bool {
    forall|i: int| 0 <= i < s.len() ==> s[i] != c
}

proof fn lemma_find_skip(s: Seq<char>, c: char, i: int, j: int)
    requires
        0 <= i <= j <= s.len(),
        forall|k: int| i <= k < j ==> s[k] != c,
    ensures
        find_from(s, c, i) == find_from(s, c, j),
    decreases j - i,
{
    if i < j {
        lemma_find_skip(s, c, i + 1, j);
    }
}

pub proof fn lemma_find_after(a: Seq<char>, c: char, b: Seq<char>)
    requires
        lacks(a, c),
    ensures
        find(a + seq![c] + b, c) == Some(a.len() as int),
{
    let s = a + seq![c] + b;
    lemma_find_skip(s, c, 0, a.len() as int);
}

pub proof fn lemma_find_none(a: Seq<char>, c: char)
    requires
        lacks(a, c),
    ensures
        find(a, c) == None::<int>,
{
    lemma_find_skip(a, c, 0, a.len() as int);
}

pub proof fn lemma_split_cons(a: Seq<char>, c: char, b: Seq<char>)
    requires
        lacks(a, c),
    ensures
        split(a + seq![c] + b, c) == seq![a] + split(b, c),
{
    let s = a + seq![c] + b;
    lemma_find_after(a, c, b);
    assert(s.subrange(0, a.len() as int) =~= a);
    assert(s.subrange(a.len() as int + 1, s.len() as int) =~= b);
}

pub proof fn lemma_split_single(a: Seq<char>, c: char)
    requires
        lacks(a, c),
    ensures
        split(a, c) == seq![a],
{
    lemma_find_none(a, c);
}

/// Text that trimming leaves as it is.
pub open spec fn trimmed(x: Seq<char>) -> bool {
    x.len() > 0 && !is_ws(x[0]) && !is_ws(x.last())
}

pub proof fn lemma_trim_plain(x: Seq<char>)
    requires
        trimmed(x),
    ensures
        trim(x) == x,
{
    assert(trim_start(x) == x);
    assert(trim_end(x) == x);
}

pub proof fn lemma_trim_space(x: Seq<char>)
    requires
        trimmed(x),
    ensures
        trim(seq![' '] + x) == x,
{
    assert((seq![' '] + x).drop_first() =~= x);
    assert(trim_start(seq![' '] + x) == trim_start(x));
    lemma_trim_plain(x);
}

proof fn lemma_digit(d: nat)
    requires
        d < 10,
    ensures
        is_digit(digit_char(d)),
        digit_value(digit_char(d)) == d,
        digit_char(d) != '+',
        digit_char(d) != ',',
        !is_ws(digit_char(d)),
{
}

/// The decimal text of `n` reads back as `n`, and holds only digits.
pub proof fn lemma_dec_text(n: nat)
    ensures
        dec_text(n).len() > 0,
        all_digits(dec_text(n)),
        dec_value(dec_text(n)) == n,
    decreases n,
{
    if n < 10 {
        lemma_digit(n);
        assert(dec_text(n).drop_last() =~= Seq::<char>::empty());
        assert(dec_value(Seq::<char>::empty()) == 0);
        assert(dec_value(dec_text(n)) == dec_value(dec_text(n).drop_last()) * 10 + digit_value(
            dec_text(n).last(),
        ));
    } else {
        lemma_dec_text(n / 10);
        lemma_digit(n % 10);
        let s = dec_text(n);
        assert(s.drop_last() =~= dec_text(n / 10));
        assert(s.last() == digit_char(n % 10));
        assert(dec_value(s) == dec_value(s.drop_last()) * 10 + digit_value(s.last()));
        assert(n == (n / 10) * 10 + n % 10);
        assert forall|i: int| 0 <= i < s.len() implies is_digit(#[trigger] s[i]) by {
            if i < s.len() - 1 {
                assert(s[i] == dec_text(n / 10)[i]);
            }
        }
    }
}

pub proof fn lemma_parse_dec(n: nat, max: int)
    requires
        n <= max,
    ensures
        parse_uint(dec_text(n), max) == Some(n as int),
        trimmed(dec_text(n)),
        lacks(dec_text(n), '+'),
        lacks(dec_text(n), ','),
        lacks(dec_text(n), '='),
{
    lemma_dec_text(n);
    let s = dec_text(n);
    assert(is_digit(s[0]));
    assert(is_digit(s[s.len() - 1]));
    assert forall|i: int| 0 <= i < s.len() implies s[i] != '+' && s[i] != ',' && s[i] != '=' by {
        assert(is_digit(s[i]));
    }
}

proof fn lemma_joined_cons(n0: Seq<char>, rest: Seq<Seq<char>>)
    ensures
        joined(seq![n0] + rest) == seq!['+'] + n0 + joined(rest),
    decreases rest.len(),
{
    reveal_strlit("+");
    assert("+"@ =~= seq!['+']);
    let s = seq![n0] + rest;
    assert(joined(Seq::<Seq<char>>::empty()) == Seq::<char>::empty());
    if rest.len() == 0 {
        assert(s.drop_last() =~= Seq::<Seq<char>>::empty());
        assert(joined(s) =~= seq!['+'] + n0 + joined(rest));
    } else {
        lemma_joined_cons(n0, rest.drop_last());
        assert(s.drop_last() =~= seq![n0] + rest.drop_last());
        assert(s.last() == rest.last());
        assert(joined(rest) == joined(rest.drop_last()) + "+"@ + rest.last());
        assert(joined(s) =~= seq!['+'] + n0 + joined(rest));
    }
}

/// A field name as the signer writes it: not empty, and free of whitespace,
/// `,` and `+`.
pub open spec fn is_field_name(n: Seq<char>) -> bool {
    n.len() > 0 && forall|i: int|
        0 <= i < n.len() ==> !is_ws(#[trigger] n[i]) && n[i] != ',' && n[i] != '+'
}

proof fn lemma_split_joined(x: Seq<char>, ns: Seq<Seq<char>>)
    requires
        lacks(x, '+'),
        forall|i: int| 0 <= i < ns.len() ==> lacks(#[trigger] ns[i], '+'),
    ensures
        split(x + joined(ns), '+') == seq![x] + ns,
    decreases ns.len(),
{
    if ns.len() == 0 {
        assert(x + joined(ns) =~= x);
        lemma_split_single(x, '+');
        assert(seq![x] + ns =~= seq![x]);
    } else {
        let rest = ns.drop_first();
        assert(ns =~= seq![ns[0]] + rest);
        lemma_joined_cons(ns[0], rest);
        assert(x + joined(ns) =~= x + seq!['+'] + (ns[0] + joined(rest)));
        lemma_split_cons(x, '+', ns[0] + joined(rest));
        assert(lacks(ns[0], '+'));
        assert forall|i: int| 0 <= i < rest.len() implies lacks(#[trigger] rest[i], '+') by {
            assert(rest[i] == ns[i + 1]);
        }
        lemma_split_joined(ns[0], rest);
        assert(seq![x] + (seq![ns[0]] + rest) =~= seq![x] + ns);
    }
}

proof fn lemma_item(pre: Seq<char>, name: Seq<char>, value: Seq<char>)
    requires
        pre == Seq::<char>::empty() || pre == seq![' '],
        trimmed(name),
        lacks(name, '='),
        trimmed(value),
    ensures
        trim(pre + name + seq!['='] + value) == name + seq!['='] + value,
        find(name + seq!['='] + value, '=') == Some(name.len() as int),
        trim((name + seq!['='] + value).subrange(0, name.len() as int)) == name,
        trim(
            (name + seq!['='] + value).subrange(
                name.len() as int + 1,
                (name + seq!['='] + value).len() as int,
            ),
        ) == value,
{
    let it = name + seq!['='] + value;
    assert(trimmed(it));
    if pre.len() == 0 {
        assert(pre + it =~= it);
        lemma_trim_plain(it);
    } else {
        assert(pre + it =~= seq![' '] + it);
        lemma_trim_space(it);
    }
    assert(pre + name + seq!['='] + value =~= pre + it);
    lemma_find_after(name, '=', value);
    assert(it.subrange(0, name.len() as int) =~= name);
    assert(it.subrange(name.len() as int + 1, it.len() as int) =~= value);
    lemma_trim_plain(name);
    lemma_trim_plain(value);
}

proof fn lemma_find_sub_skip(s: Seq<char>, p: Seq<char>, i: int, j: int)
    requires
        0 <= i <= j,
        j + p.len() <= s.len(),
        forall|k: int| i <= k < j ==> #[trigger] s.subrange(k, k + p.len()) != p,
    ensures
        crate::text::find_sub_from(s, p, i) == crate::text::find_sub_from(s, p, j),
    decreases j - i,
{
    if i < j {
        lemma_find_sub_skip(s, p, i + 1, j);
    }
}

proof fn lemma_rfind_skip(s: Seq<char>, c: char, j: int)
    requires
        0 <= j <= s.len(),
        forall|k: int| j <= k < s.len() ==> s[k] != c,
    ensures
        crate::text::rfind(s, c) == crate::text::rfind(s.subrange(0, j), c),
    decreases s.len() - j,
{
    if j < s.len() {
        assert(s.drop_last().subrange(0, j) =~= s.subrange(0, j));
        lemma_rfind_skip(s.drop_last(), c, j);
    } else {
        assert(s.subrange(0, j) =~= s);
    }
}

/// The header value that the signer writes for these parameters and the
/// signature text `g`.
pub open spec fn signer_output(
    start: u64,
    window: u64,
    key: u32,
    names: Seq<Seq<char>>,
    omit_body: bool,
    g: Seq<char>,
) -> Seq<char> {
    param_text(start, window, key, names, omit_body) + ", sig="@ + g
}

/// The fields that the signer declares.
pub open spec fn signer_fields(names: Seq<Seq<char>>, omit_body: bool) -> Seq<Seq<char>> {
    default_fields() + names + if omit_body {
        seq![nobody_field()]
    } else {
        Seq::empty()
    }
}

proof fn lemma_joined_lacks(ns: Seq<Seq<char>>, c: char)
    requires
        c != '+',
        forall|i: int| 0 <= i < ns.len() ==> lacks(#[trigger] ns[i], c),
    ensures
        lacks(joined(ns), c),
        !is_ws(c) ==> forall|i: int| 0 <= i < joined(ns).len() ==> #[trigger] joined(ns)[i] != c,
    decreases ns.len(),
{
    reveal_strlit("+");
    if ns.len() > 0 {
        lemma_joined_lacks(ns.drop_last(), c);
        assert(lacks(ns.last(), c));
        let j = joined(ns);
        assert(j == joined(ns.drop_last()) + "+"@ + ns.last());
        assert forall|i: int| 0 <= i < j.len() implies j[i] != c by {
            if i < joined(ns.drop_last()).len() {
                assert(j[i] == joined(ns.drop_last())[i]);
            } else if i == joined(ns.drop_last()).len() {
                assert(j[i] == '+');
            } else {
                assert(j[i] == ns.last()[i - joined(ns.drop_last()).len() - 1]);
            }
        }
    }
}

proof fn lemma_item_lacks(pre: Seq<char>, name: Seq<char>, value: Seq<char>)
    requires
        pre == Seq::<char>::empty() || pre == seq![' '],
        lacks(name, ','),
        lacks(value, ','),
    ensures
        lacks(pre + name + seq!['='] + value, ','),
{
    let it = pre + name + seq!['='] + value;
    assert forall|i: int| 0 <= i < it.len() implies it[i] != ',' by {
        if i < pre.len() {
        } else if i < pre.len() + name.len() {
            assert(it[i] == name[i - pre.len()]);
        } else if i == pre.len() + name.len() {
        } else {
            assert(it[i] == value[i - pre.len() - name.len() - 1]);
        }
    }
}

/// The `add` parameter's value that the signer writes.
pub open spec fn add_value(names: Seq<Seq<char>>, omit_body: bool) -> Seq<char> {
    method_field() + joined(
        seq![path_field()] + names + if omit_body {
            seq![nobody_field()]
        } else {
            Seq::empty()
        },
    )
}

pub open spec fn names_ok(names: Seq<Seq<char>>) -> bool {
    forall|i: int|
        0 <= i < names.len() ==> is_field_name(#[trigger] names[i]) && names[i] != nobody_field()
}

proof fn lemma_add_value(names: Seq<Seq<char>>, omit_body: bool)
    requires
        names_ok(names),
    ensures
        trimmed(add_value(names, omit_body)),
        lacks(add_value(names, omit_body), ','),
        split(add_value(names, omit_body), '+') == signer_fields(names, omit_body),
        ", add=-method+-path"@ + joined(names) + (if omit_body {
            "+-nobody"@
        } else {
            Seq::empty()
        }) == seq![',', ' '] + "add"@ + seq!['='] + add_value(names, omit_body),
        signer_fields(names, omit_body).contains(nobody_field()) == omit_body,
{
    reveal_strlit("+");
    reveal_strlit(", add=-method+-path");
    reveal_strlit("+-nobody");
    reveal_strlit("-method");
    reveal_strlit("-path");
    reveal_strlit("-nobody");
    reveal_strlit("add");
    let opt: Seq<Seq<char>> = if omit_body { seq![nobody_field()] } else { Seq::empty() };
    let fields = names + opt;
    let tail = seq![path_field()] + fields;
    let v = method_field() + joined(tail);
    assert(tail =~= seq![path_field()] + names + opt);
    assert(v == add_value(names, omit_body));
    assert forall|i: int| 0 <= i < fields.len() implies lacks(#[trigger] fields[i], '+') && lacks(
        fields[i],
        ',',
    ) && fields[i].len() > 0 && !is_ws(fields[i].last()) by {
        if i < names.len() {
            assert(fields[i] == names[i]);
            assert(is_field_name(names[i]));
            assert(!is_ws(names[i][names[i].len() - 1]));
        } else {
            assert(fields[i] == nobody_field());
        }
    }
    assert forall|i: int| 0 <= i < tail.len() implies lacks(#[trigger] tail[i], '+') && lacks(
        tail[i],
        ',',
    ) by {
        if i > 0 {
            assert(tail[i] == fields[i - 1]);
        }
    }
    lemma_split_joined(method_field(), tail);
    assert(seq![method_field()] + tail =~= signer_fields(names, omit_body));
    lemma_joined_lacks(tail, ',');
    lemma_joined_cons(path_field(), fields);
    if omit_body {
        assert(fields.drop_last() =~= names);
        assert(joined(fields) == joined(names) + "+"@ + nobody_field());
    } else {
        assert(fields =~= names);
    }
    assert(", add=-method+-path"@ + joined(names) + (if omit_body {
        "+-nobody"@
    } else {
        Seq::empty()
    }) =~= seq![',', ' '] + "add"@ + seq!['='] + v);
    assert(trimmed(v)) by {
        assert(v[0] == '-');
        let lt = tail.last();
        assert(lacks(lt, '+'));
        if tail.len() > 1 {
            assert(lt == fields[tail.len() - 2]);
        }
        assert(joined(tail) == joined(tail.drop_last()) + "+"@ + lt);
        assert(v.last() == lt.last());
    }
    assert(lacks(v, ',')) by {
        assert forall|i: int| 0 <= i < v.len() implies v[i] != ',' by {
            if i >= method_field().len() {
                assert(v[i] == joined(tail)[i - method_field().len()]);
            }
        }
    }
    let f = signer_fields(names, omit_body);
    if omit_body {
        assert(f[f.len() - 1] == nobody_field());
    } else {
        assert(method_field() != nobody_field()) by {
            assert(method_field()[1] != nobody_field()[1]);
        }
        assert(path_field() != nobody_field()) by {
            assert(path_field().len() != nobody_field().len());
        }
        assert forall|i: int| 0 <= i < f.len() implies f[i] != nobody_field() by {
            if i >= 2 {
                assert(f[i] == names[i - 2]);
            }
        }
    }
}

proof fn lemma_residual(p: Seq<char>, g: Seq<char>)
    requires
        g.len() > 0,
        forall|i: int|
            0 <= i < p.len() + 6 ==> #[trigger] (p + ", sig="@ + g).subrange(i, i + g.len()) != g,
    ensures
        residual(p + ", sig="@ + g, g) == p,
{
    reveal_strlit(", sig=");
    let h = p + ", sig="@ + g;
    let pl = p.len() as int;
    let gl = g.len() as int;
    let j = pl + 6;
    lemma_find_sub_skip(h, g, 0, j);
    assert(h.subrange(j, j + gl) =~= g);
    let left = h.subrange(0, j);
    assert(left =~= p + ", sig="@);
    lemma_rfind_skip(left, ',', pl + 1);
    assert(left.subrange(0, pl + 1).drop_last() =~= p);
    assert(crate::text::rfind(left, ',') == Some(pl));
    assert(left.subrange(0, pl) =~= p);
    assert(h.subrange(j + gl, h.len() as int) =~= Seq::<char>::empty());
    assert(residual(h, g) =~= p);
}

proof fn lemma_time_item(start: u64, window: u64)
    ensures
        apply_param(
            initial_view(),
            "time"@ + seq!['='] + (dec_text(start as nat) + seq!['+'] + dec_text(window as nat)),
        ) == Ok::<HeaderView, Seq<char>>(HeaderView { start, duration: window, ..initial_view() }),
        lacks("time"@ + seq!['='] + (dec_text(start as nat) + seq!['+'] + dec_text(window as nat)), ','),
{
    reveal_strlit("add");
    reveal_strlit("key");
    reveal_strlit("sig");
    reveal_strlit("time");
    let ss = dec_text(start as nat);
    let ws = dec_text(window as nat);
    lemma_parse_dec(start as nat, u64::MAX as int);
    lemma_parse_dec(window as nat, u64::MAX as int);
    let tv = ss + seq!['+'] + ws;
    assert(trimmed(tv));
    assert(lacks(tv, ',')) by {
        assert forall|i: int| 0 <= i < tv.len() implies tv[i] != ',' by {
            if i < ss.len() {
                assert(tv[i] == ss[i]);
            } else if i > ss.len() {
                assert(tv[i] == ws[i - ss.len() - 1]);
            }
        }
    }
    lemma_item(Seq::<char>::empty(), "time"@, tv);
    assert(Seq::<char>::empty() + "time"@ + seq!['='] + tv =~= "time"@ + seq!['='] + tv);
    lemma_item_lacks(Seq::<char>::empty(), "time"@, tv);
    lemma_find_after(ss, '+', ws);
    assert(tv.subrange(0, ss.len() as int) =~= ss);
    assert(tv.subrange(ss.len() as int + 1, tv.len() as int) =~= ws);
}

proof fn lemma_named_items(acc: HeaderView, key: u32, v: Seq<char>, g: Seq<char>)
    requires
        trimmed(v),
        lacks(v, ','),
        trimmed(g),
        lacks(g, ','),
    ensures
        apply_param(acc, seq![' '] + "key"@ + seq!['='] + dec_text(key as nat)) == Ok::<
            HeaderView,
            Seq<char>,
        >(HeaderView { key, ..acc }),
        apply_param(acc, seq![' '] + "add"@ + seq!['='] + v) == Ok::<HeaderView, Seq<char>>(
            HeaderView { add: split(v, '+'), ..acc },
        ),
        apply_param(acc, seq![' '] + "sig"@ + seq!['='] + g) == Ok::<HeaderView, Seq<char>>(
            HeaderView { sig: g, ..acc },
        ),
        lacks(seq![' '] + "key"@ + seq!['='] + dec_text(key as nat), ','),
        lacks(seq![' '] + "add"@ + seq!['='] + v, ','),
        lacks(seq![' '] + "sig"@ + seq!['='] + g, ','),
{
    reveal_strlit("add");
    reveal_strlit("key");
    reveal_strlit("sig");
    reveal_strlit("time");
    lemma_parse_dec(key as nat, u32::MAX as int);
    let sp = seq![' '];
    lemma_item(sp, "key"@, dec_text(key as nat));
    lemma_item(sp, "add"@, v);
    lemma_item(sp, "sig"@, g);
    lemma_item_lacks(sp, "key"@, dec_text(key as nat));
    lemma_item_lacks(sp, "add"@, v);
    lemma_item_lacks(sp, "sig"@, g);
}

/// The items between the commas of a header that the signer writes.
pub open spec fn signer_items(
    start: u64,
    window: u64,
    key: u32,
    v: Seq<char>,
    g: Seq<char>,
    has_add: bool,
) -> Seq<Seq<char>> {
    let i1 = "time"@ + seq!['='] + (dec_text(start as nat) + seq!['+'] + dec_text(window as nat));
    let i2 = seq![' '] + "key"@ + seq!['='] + dec_text(key as nat);
    let i3 = seq![' '] + "add"@ + seq!['='] + v;
    let i4 = seq![' '] + "sig"@ + seq!['='] + g;
    if has_add {
        seq![i1, i2, i3, i4]
    } else {
        seq![i1, i2, i4]
    }
}

proof fn lemma_url_safe(g: Seq<char>)
    requires
        g.len() > 0,
        forall|i: int| 0 <= i < g.len() ==> is_url_safe_char(#[trigger] g[i]),
    ensures
        lacks(g, ','),
        trimmed(g),
{
    assert(is_url_safe_char(g[0]));
    assert(is_url_safe_char(g[g.len() - 1]));
    assert forall|i: int| 0 <= i < g.len() implies g[i] != ',' by {
        assert(is_url_safe_char(g[i]));
    }
}

#[verifier::rlimit(100)]
proof fn lemma_shape(start: u64, window: u64, key: u32, names: Seq<Seq<char>>, omit_body: bool, g: Seq<char>)
    requires
        names_ok(names),
        g.len() > 0,
        forall|i: int| 0 <= i < g.len() ==> is_url_safe_char(#[trigger] g[i]),
    ensures
        trim_start(signer_output(start, window, key, names, omit_body, g)) == signer_output(
            start,
            window,
            key,
            names,
            omit_body,
            g,
        ),
        signer_output(start, window, key, names, omit_body, g).len() >= 7,
        signer_output(start, window, key, names, omit_body, g).subrange(0, 7) == scheme(),
        split(
            signer_output(start, window, key, names, omit_body, g).subrange(
                7,
                signer_output(start, window, key, names, omit_body, g).len() as int,
            ),
            ',',
        ) == signer_items(
            start,
            window,
            key,
            add_value(names, omit_body),
            g,
            names.len() > 0 || omit_body,
        ),
{
    reveal_strlit("alpico time=");
    reveal_strlit("+");
    reveal_strlit(", key=");
    reveal_strlit(", sig=");
    reveal_strlit("alpico ");
    let ss = dec_text(start as nat);
    let ws = dec_text(window as nat);
    let ks = dec_text(key as nat);
    let h = signer_output(start, window, key, names, omit_body, g);
    let has_add = names.len() > 0 || omit_body;
    let v = add_value(names, omit_body);
    lemma_add_value(names, omit_body);
    lemma_url_safe(g);
    lemma_time_item(start, window);
    lemma_named_items(initial_view(), key, v, g);
    let sp = seq![' '];
    let i1 = "time"@ + seq!['='] + (ss + seq!['+'] + ws);
    let i2 = sp + "key"@ + seq!['='] + ks;
    let i3 = sp + "add"@ + seq!['='] + v;
    let i4 = sp + "sig"@ + seq!['='] + g;
    let r = h.subrange(7, h.len() as int);
    lemma_split_single(i4, ',');
    reveal_strlit("key");
    reveal_strlit("sig");
    reveal_strlit("time");
    reveal_strlit("add");
    if has_add {
        assert(r =~= i1 + seq![','] + (i2 + seq![','] + (i3 + seq![','] + i4)));
        lemma_split_cons(i3, ',', i4);
        lemma_split_cons(i2, ',', i3 + seq![','] + i4);
        lemma_split_cons(i1, ',', i2 + seq![','] + (i3 + seq![','] + i4));
        assert(split(r, ',') =~= seq![i1, i2, i3, i4]);
    } else {
        assert(r =~= i1 + seq![','] + (i2 + seq![','] + i4));
        lemma_split_cons(i2, ',', i4);
        lemma_split_cons(i1, ',', i2 + seq![','] + i4);
        assert(split(r, ',') =~= seq![i1, i2, i4]);
    }
    assert(h[0] == 'a');
    assert(trim_start(h) == h);
    assert(h.subrange(0, 7) =~= scheme());
}

proof fn lemma_chain(start: u64, window: u64, key: u32, v: Seq<char>, g: Seq<char>, has_add: bool)
    requires
        trimmed(v),
        lacks(v, ','),
        trimmed(g),
        lacks(g, ','),
    ensures
        apply_params(initial_view(), signer_items(start, window, key, v, g, has_add)) == Ok::<
            HeaderView,
            Seq<char>,
        >(
            HeaderView {
                start,
                duration: window,
                key,
                sig: g,
                add: if has_add { split(v, '+') } else { default_fields() },
                ..initial_view()
            },
        ),
{
    let items = signer_items(start, window, key, v, g, has_add);
    let a0 = initial_view();
    let a1 = HeaderView { start, duration: window, ..a0 };
    let a2 = HeaderView { key, ..a1 };
    let a3 = HeaderView { add: split(v, '+'), ..a2 };
    lemma_time_item(start, window);
    lemma_named_items(a1, key, v, g);
    lemma_named_items(a2, key, v, g);
    lemma_named_items(a3, key, v, g);
    let a4 = if has_add { HeaderView { sig: g, ..a3 } } else { HeaderView { sig: g, ..a2 } };
    let last = if has_add { a3 } else { a2 };
    let i4 = items.last();
    assert(apply_params(a4, Seq::<Seq<char>>::empty()) == Ok::<HeaderView, Seq<char>>(a4));
    assert(seq![i4].drop_first() =~= Seq::<Seq<char>>::empty());
    assert(apply_params(last, seq![i4]) == Ok::<HeaderView, Seq<char>>(a4));
    if has_add {
        let i3 = items[2];
        let i2 = items[1];
        assert(seq![i3, i4].drop_first() =~= seq![i4]);
        assert(apply_params(a2, seq![i3, i4]) == Ok::<HeaderView, Seq<char>>(a4));
        assert(seq![i2, i3, i4].drop_first() =~= seq![i3, i4]);
        assert(apply_params(a1, seq![i2, i3, i4]) == Ok::<HeaderView, Seq<char>>(a4));
        assert(items.drop_first() =~= seq![i2, i3, i4]);
    } else {
        let i2 = items[1];
        assert(seq![i2, i4].drop_first() =~= seq![i4]);
        assert(apply_params(a1, seq![i2, i4]) == Ok::<HeaderView, Seq<char>>(a4));
        assert(items.drop_first() =~= seq![i2, i4]);
    }
}

/// A header that the signer writes parses back to the window, key, field
/// list and signature it was written with, and the text that the parser
/// recovers for the canonical message is exactly the parameter text that
/// the signer signed. This needs the field names to be free of whitespace,
/// `,` and `+` and distinct from `-nobody`, the signature text to be
/// URL-safe base64, and the signature not to occur earlier in the header.
pub proof fn signer_output_parses(
    start: u64,
    window: u64,
    key: u32,
    names: Seq<Seq<char>>,
    omit_body: bool,
    g: Seq<char>,
)
    requires
        names_ok(names),
        g.len() > 0,
        forall|i: int| 0 <= i < g.len() ==> is_url_safe_char(#[trigger] g[i]),
        forall|i: int|
            0 <= i < param_text(start, window, key, names, omit_body).len() + 6 ==> #[trigger] signer_output(
                start,
                window,
                key,
                names,
                omit_body,
                g,
            ).subrange(i, i + g.len()) != g,
    ensures
        parse_header(signer_output(start, window, key, names, omit_body, g)) == Ok::<
            HeaderView,
            Seq<char>,
        >(
            HeaderView {
                start,
                duration: window,
                sig: g,
                key,
                add: signer_fields(names, omit_body),
                header: param_text(start, window, key, names, omit_body),
                omit_body,
            },
        ),
{
    reveal_strlit("alpico ");
    let p = param_text(start, window, key, names, omit_body);
    let h = signer_output(start, window, key, names, omit_body, g);
    let has_add = names.len() > 0 || omit_body;
    let v = add_value(names, omit_body);
    lemma_add_value(names, omit_body);
    lemma_url_safe(g);
    lemma_shape(start, window, key, names, omit_body, g);
    lemma_chain(start, window, key, v, g, has_add);
    if !has_add {
        assert(signer_fields(names, omit_body) =~= default_fields());
    }
    assert(h == p + ", sig="@ + g);
    lemma_residual(p, g);
}


/// Signing and verifying agree: the verifier, given the header that the
/// signer wrote, the same method, path, header values and body, a time in
/// the window and a key under which the signature is valid over the signed
/// message, rebuilds exactly that message and accepts with the signer's key
/// number. `g` is the signature's base64 text and `sig` its bytes.
pub proof fn sign_verify_round_trip<E>(
    start: u64,
    window: u64,
    key: u32,
    names: Seq<Seq<char>>,
    header_values: Seq<Seq<u8>>,
    method: Seq<u8>,
    path: Seq<u8>,
    body: Option<Seq<u8>>,
    received_body: Seq<u8>,
    g: Seq<char>,
    sig: Seq<u8>,
    pk: [u8; 32],
    now: u64,
)
    requires
        names_ok(names),
        forall|i: int| 0 <= i < names.len() ==> !is_pseudo_field(#[trigger] names[i]),
        names.len() == header_values.len(),
        g.len() > 0,
        forall|i: int| 0 <= i < g.len() ==> is_url_safe_char(#[trigger] g[i]),
        forall|i: int|
            0 <= i < param_text(start, window, key, names, body is None).len() + 6 ==> #[trigger] signer_output(
                start,
                window,
                key,
                names,
                body is None,
                g,
            ).subrange(i, i + g.len()) != g,
        b64url_decoding(g) == Some(sig),
        sig.len() == 64,
        is_public_key(pk@),
        ed25519_verifies(
            pk@,
            canonical(
                param_text(start, window, key, names, body is None),
                signed_values(method, path, header_values, body is None),
                body,
            ),
            sig,
        ),
        body matches Some(b) ==> received_body == b,
        in_window(now, start, window),
    ensures
        parse_header(signer_output(start, window, key, names, body is None, g)) matches Ok(h) && {
            &&& in_window(now, h.start, h.duration)
            &&& h.add == signer_fields(names, body is None)
            &&& forall|i: int|
                0 <= i < h.add.len() && is_pseudo_field(#[trigger] h.add[i]) ==> signed_values(
                    method,
                    path,
                    header_values,
                    body is None,
                )[i] == pseudo_value(h.add[i], method, path)
            &&& forall|j: int|
                0 <= j < names.len() ==> h.add[j + 2] == names[j] && signed_values(
                    method,
                    path,
                    header_values,
                    body is None,
                )[j + 2] == #[trigger] header_values[j]
            &&& check_outcome(
                h,
                Ok::<[u8; 32], E>(pk),
                signed_values(method, path, header_values, body is None),
                received_body,
            ) == Ok::<u32, Error<E>>(key)
        },
{
    reveal_strlit("-method");
    reveal_strlit("-path");
    reveal_strlit("-nobody");
    let omit = body is None;
    signer_output_parses(start, window, key, names, omit, g);
    let f = signer_fields(names, omit);
    let vals = signed_values(method, path, header_values, omit);
    assert(f.len() == vals.len());
    assert forall|i: int| 0 <= i < f.len() && is_pseudo_field(#[trigger] f[i]) implies vals[i]
        == pseudo_value(f[i], method, path) by {
        if i >= 2 && i < 2 + names.len() {
            assert(f[i] == names[i - 2]);
        }
        if i == 0 {
            assert(f[0] == crate::header::method_field());
        }
        if i == 1 {
            assert(f[1] == crate::header::path_field());
            assert(crate::header::path_field() != crate::header::method_field()) by {
                assert(crate::header::path_field().len() != crate::header::method_field().len());
            }
        }
        if i == 2 + names.len() {
            assert(f[i] == crate::header::nobody_field());
            assert(crate::header::nobody_field() != crate::header::method_field()) by {
                assert(crate::header::nobody_field()[1] != crate::header::method_field()[1]);
            }
            assert(crate::header::nobody_field() != crate::header::path_field()) by {
                assert(crate::header::nobody_field().len() != crate::header::path_field().len());
            }
        }
    }
    assert forall|j: int| 0 <= j < names.len() implies f[j + 2] == names[j] && vals[j + 2]
        == #[trigger] header_values[j] by {}
    let o: Option<Seq<u8>> = if omit { None } else { Some(received_body) };
    assert(o == body);
}

proof fn lemma_joined_swap(a: Seq<char>, b: Seq<char>)
    requires
        names_ok(seq![a, b]),
        a != b,
    ensures
        joined(seq![a, b]) != joined(seq![b, a]),
{
    reveal_strlit("+");
    assert(is_field_name(seq![a, b][0]));
    assert(is_field_name(seq![a, b][1]));
    let jab = joined(seq![a, b]);
    let jba = joined(seq![b, a]);
    assert(seq![a, b].drop_last() =~= seq![a]);
    assert(seq![b, a].drop_last() =~= seq![b]);
    assert(seq![a].drop_last() =~= Seq::<Seq<char>>::empty());
    assert(seq![b].drop_last() =~= Seq::<Seq<char>>::empty());
    assert(seq![a, b] =~= seq![a] + seq![b]);
    assert(seq![b, a] =~= seq![b] + seq![a]);
    assert(seq![a] =~= seq![a] + Seq::<Seq<char>>::empty());
    assert(seq![b] =~= seq![b] + Seq::<Seq<char>>::empty());
    lemma_joined_cons(a, seq![b]);
    lemma_joined_cons(b, seq![a]);
    lemma_joined_cons(a, Seq::<Seq<char>>::empty());
    lemma_joined_cons(b, Seq::<Seq<char>>::empty());
    assert(joined(Seq::<Seq<char>>::empty()) == Seq::<char>::empty());
    assert(jab =~= seq!['+'] + a + seq!['+'] + b);
    assert(jba =~= seq!['+'] + b + seq!['+'] + a);
    // the two texts part at the first place where `a` and `b` part
    assert(jab != jba) by {
        if a.len() <= b.len() {
            if a =~= b.subrange(0, a.len() as int) {
                if a.len() == b.len() {
                    assert(b.subrange(0, a.len() as int) =~= b);
                }
                assert(a.len() < b.len());
                assert(jab[1 + a.len() as int] == '+');
                assert(jba[1 + a.len() as int] == b[a.len() as int]);
            } else {
                let i = choose|i: int| 0 <= i < a.len() && a[i] != b[i];
                assert(exists|i: int| 0 <= i < a.len() && a[i] != b[i]) by {
                    assert(!(a =~= b.subrange(0, a.len() as int)));
                }
                assert(jab[1 + i] != jba[1 + i]);
            }
        } else {
            if b =~= a.subrange(0, b.len() as int) {
                assert(jba[1 + b.len() as int] == '+');
                assert(jab[1 + b.len() as int] == a[b.len() as int]);
            } else {
                let i = choose|i: int| 0 <= i < b.len() && a[i] != b[i];
                assert(exists|i: int| 0 <= i < b.len() && a[i] != b[i]) by {
                    assert(!(b =~= a.subrange(0, b.len() as int)));
                }
                assert(jab[1 + i] != jba[1 + i]);
            }
        }
    }
}

/// Signing the headers `a, b` and signing `b, a` declare different field
/// orders and sign different parameter texts, for any two distinct field
/// names.
pub proof fn field_order_matters(
    start: u64,
    window: u64,
    key: u32,
    a: Seq<char>,
    b: Seq<char>,
    omit_body: bool,
)
    requires
        names_ok(seq![a, b]),
        a != b,
    ensures
        signer_fields(seq![a, b], omit_body) != signer_fields(seq![b, a], omit_body),
        param_text(start, window, key, seq![a, b], omit_body) != param_text(
            start,
            window,
            key,
            seq![b, a],
            omit_body,
        ),
{
    assert(signer_fields(seq![a, b], omit_body)[2] == a);
    assert(signer_fields(seq![b, a], omit_body)[2] == b);
    lemma_joined_swap(a, b);
    let jab = joined(seq![a, b]);
    let jba = joined(seq![b, a]);
    let pre = "alpico time="@ + dec_text(start as nat) + "+"@ + dec_text(window as nat) + ", key="@
        + dec_text(key as nat) + ", add=-method+-path"@;
    let post: Seq<char> = if omit_body { "+-nobody"@ } else { Seq::empty() };
    let pab = param_text(start, window, key, seq![a, b], omit_body);
    let pba = param_text(start, window, key, seq![b, a], omit_body);
    assert(pab =~= pre + jab + post);
    assert(pba =~= pre + jba + post);
    if pab == pba {
        assert(jab.len() == jba.len());
        assert((pre + jab + post).subrange(pre.len() as int, pre.len() + jab.len() as int) =~= jab);
        assert((pre + jba + post).subrange(pre.len() as int, pre.len() + jba.len() as int) =~= jba);
    }
}
} // verus!
