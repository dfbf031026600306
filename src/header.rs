//! Authorization header parsing.

use vstd::prelude::*;
use crate::text::{
    chars_of, find, find_in, find_sub_from, is_ws_exec, parse_uint, parse_uint_in, range_eq,
    rfind, split, trim, trim_range, trim_start,
};

verus! {

/// The auth-header fields.
///
/// Example: `Authorization: alpico time=994+66, key=1, sig=<base64url>`
#[derive(Default, Debug, PartialEq)]
pub struct AuthHeader {
    pub start: u64,
    pub duration: u64,
    pub sig: String,
    pub key: u32,
    pub add: Vec<String>,
    /// The header text with the signature parameter's value taken out.
    pub header: String,
    /// Set when the field list holds the `-nobody` pseudo-field.
    pub omit_body: bool,
}

/// What an `AuthHeader` holds, as character sequences.
pub struct HeaderView {
    pub start: u64,
    pub duration: u64,
    pub sig: Seq<char>,
    pub key: u32,
    pub add: Seq<Seq<char>>,
    pub header: Seq<char>,
    pub omit_body: bool,
}

pub open spec fn fields_view(v: Seq<String>) -> Seq<Seq<char>> {
    v.map_values(|s: String| s@)
}

impl View for AuthHeader {
    type V = HeaderView;

    open spec fn view(&self) -> HeaderView {
        HeaderView {
            start: self.start,
            duration: self.duration,
            sig: self.sig@,
            key: self.key,
            add: fields_view(self.add@),
            header: self.header@,
            omit_body: self.omit_body,
        }
    }
}

pub open spec fn scheme() -> Seq<char> {
    "alpico "@
}

pub open spec fn method_field() -> Seq<char> {
    "-method"@
}

pub open spec fn path_field() -> Seq<char> {
    "-path"@
}

/// The pseudo-field that tells the verifier to leave the body out.
pub open spec fn nobody_field() -> Seq<char> {
    "-nobody"@
}

/// The field list when no `add` parameter is given.
pub open spec fn default_fields() -> Seq<Seq<char>> {
    seq![method_field(), path_field()]
}

pub open spec fn initial_view() -> HeaderView {
    HeaderView {
        start: 0,
        duration: 0,
        sig: Seq::empty(),
        key: 0,
        add: default_fields(),
        header: Seq::empty(),
        omit_body: false,
    }
}

/// One `name=value` item applied to what the earlier items gave.
pub open spec fn apply_param(acc: HeaderView, item: Seq<char>) -> Result<HeaderView, Seq<char>> {
    let it = trim(item);
    match find(it, '=') {
        None => Err("separator"@),
        Some(i) => {
            let name = trim(it.subrange(0, i));
            let value = trim(it.subrange(i + 1, it.len() as int));
            if name == "add"@ {
                Ok(HeaderView { add: split(value, '+'), ..acc })
            } else if name == "key"@ {
                match parse_uint(value, u32::MAX as int) {
                    Some(k) => Ok(HeaderView { key: k as u32, ..acc }),
                    None => Err("key"@),
                }
            } else if name == "sig"@ {
                Ok(HeaderView { sig: value, ..acc })
            } else if name == "time"@ {
                match find(value, '+') {
                    None => Err("time"@),
                    Some(j) => match parse_uint(value.subrange(0, j), u64::MAX as int) {
                        None => Err("start"@),
                        Some(s) => match parse_uint(
                            value.subrange(j + 1, value.len() as int),
                            u64::MAX as int,
                        ) {
                            None => Err("duration"@),
                            Some(d) => Ok(HeaderView { start: s as u64, duration: d as u64, ..acc }),
                        },
                    },
                }
            } else {
                Err("unknown param"@)
            }
        },
    }
}

/// The items applied in order; the first failure ends the parse.
pub open spec fn apply_params(acc: HeaderView, items: Seq<Seq<char>>) -> Result<
    HeaderView,
    Seq<char>,
>
    decreases items.len(),
{
    if items.len() == 0 {
        Ok(acc)
    } else {
        match apply_param(acc, items[0]) {
            Ok(next) => apply_params(next, items.drop_first()),
            Err(e) => Err(e),
        }
    }
}

/// The header text with its first occurrence of `sig` removed together with
/// the `,` and parameter name written before it.
pub open spec fn residual(h: Seq<char>, sig: Seq<char>) -> Seq<char> {
    match find_sub_from(h, sig, 0) {
        Some(i) => {
            let left = h.subrange(0, i);
            let right = h.subrange(i + sig.len(), h.len() as int);
            match rfind(left, ',') {
                Some(k) => left.subrange(0, k) + right,
                None => left + right,
            }
        },
        None => h,
    }
}

/// The parse of a whole `authorization` header value.
pub open spec fn parse_header(h: Seq<char>) -> Result<HeaderView, Seq<char>> {
    let t = trim_start(h);
    if t.len() < scheme().len() || t.subrange(0, scheme().len() as int) != scheme() {
        Err("scheme unsupported"@)
    } else {
        match apply_params(
            initial_view(),
            split(t.subrange(scheme().len() as int, t.len() as int), ','),
        ) {
            Err(e) => Err(e),
            Ok(p) => Ok(
                HeaderView {
                    header: residual(h, p.sig),
                    omit_body: p.add.contains(nobody_field()),
                    ..p
                },
            ),
        }
    }
}

fn string_of(src: &str, cs: &Vec<char>, a: usize, b: usize) -> (r: String)
    requires
        cs@ == src@,
        a <= b <= cs@.len(),
    ensures
        r@ == cs@.subrange(a as int, b as int),
{
    src.substring_char(a, b).to_owned()
}

/// The `+`-separated pieces of `cs[a..b]`, each as a `String`.
fn split_fields(src: &str, cs: &Vec<char>, a: usize, b: usize) -> (r: Vec<String>)
    requires
        cs@ == src@,
        a <= b <= cs@.len(),
    ensures
        fields_view(r@) == split(cs@.subrange(a as int, b as int), '+'),
{
    let mut r: Vec<String> = Vec::new();
    let mut pos = a;
    loop
        invariant
            cs@ == src@,
            a <= pos <= b <= cs@.len(),
            split(cs@.subrange(a as int, b as int), '+') == fields_view(r@) + split(
                cs@.subrange(pos as int, b as int),
                '+',
            ),
        decreases b - pos,
    {
        let ghost rest = cs@.subrange(pos as int, b as int);
        match find_in(cs, pos, b, '+') {
            Some(e) => {
                let piece = string_of(src, cs, pos, e);
                assert(rest.subrange(0, e - pos) =~= cs@.subrange(pos as int, e as int));
                assert(rest.subrange(e - pos + 1, rest.len() as int) =~= cs@.subrange(
                    e + 1,
                    b as int,
                ));
                let ghost before = fields_view(r@);
                r.push(piece);
                assert(fields_view(r@) =~= before.push(piece@));
                assert(split(rest, '+') == seq![cs@.subrange(pos as int, e as int)] + split(
                    cs@.subrange(e + 1, b as int),
                    '+',
                ));
                assert(before + split(rest, '+') =~= fields_view(r@) + split(
                    cs@.subrange(e + 1, b as int),
                    '+',
                ));
                pos = e + 1;
            },
            None => {
                let piece = string_of(src, cs, pos, b);
                let ghost before = fields_view(r@);
                r.push(piece);
                assert(fields_view(r@) =~= before.push(piece@));
                assert(before + split(rest, '+') =~= fields_view(r@));
                return r;
            },
        }
    }
}

/// Start of the first occurrence of `cs[pa..pb]` in `cs`.
fn find_sub_in(cs: &Vec<char>, pa: usize, pb: usize) -> (r: Option<usize>)
    requires
        pa <= pb <= cs@.len(),
    ensures
        match r {
            Some(i) => i + (pb - pa) <= cs@.len() && find_sub_from(
                cs@,
                cs@.subrange(pa as int, pb as int),
                0,
            ) == Some(i as int),
            None => find_sub_from(cs@, cs@.subrange(pa as int, pb as int), 0) == None::<int>,
        },
{
    let ghost p = cs@.subrange(pa as int, pb as int);
    let m = pb - pa;
    let n = cs.len();
    let mut i: usize = 0;
    while m <= n - i
        invariant
            i <= n,
            p == cs@.subrange(pa as int, pb as int),
            m == p.len(),
            n == cs@.len(),
            pa <= pb <= n,
            find_sub_from(cs@, p, 0) == find_sub_from(cs@, p, i as int),
        decreases n + 1 - i,
    {
        let mut k: usize = 0;
        while k < m && cs[i + k] == cs[pa + k]
            invariant
                p == cs@.subrange(pa as int, pb as int),
                m == p.len(),
                n == cs@.len(),
                pa <= pb <= n,
                i + m <= n,
                i <= n,
                k <= m,
                forall|t: int| 0 <= t < k ==> cs@[i + t] == p[t],
            decreases m - k,
        {
            k = k + 1;
        }
        if k == m {
            assert(cs@.subrange(i as int, i + m) =~= p);
            return Some(i);
        }
        assert(cs@.subrange(i as int, i + m)[k as int] != p[k as int]);
        i = i + 1;
    }
    None
}

/// Index of the last `c` in `cs[0..b]`.
fn rfind_in(cs: &Vec<char>, b: usize, c: char) -> (r: Option<usize>)
    requires
        b <= cs@.len(),
    ensures
        match r {
            Some(k) => k < b && rfind(cs@.subrange(0, b as int), c) == Some(k as int),
            None => rfind(cs@.subrange(0, b as int), c) == None::<int>,
        },
{
    let mut j = b;
    while j > 0
        invariant
            j <= b <= cs@.len(),
            rfind(cs@.subrange(0, b as int), c) == rfind(cs@.subrange(0, j as int), c),
        decreases j,
    {
        assert(cs@.subrange(0, j as int).drop_last() =~= cs@.subrange(0, j - 1));
        if cs[j - 1] == c {
            return Some(j - 1);
        }
        j = j - 1;
    }
    None
}

/// The parameters read so far, with the signature kept as bounds into the
/// header's characters.
struct Acc {
    start: u64,
    duration: u64,
    key: u32,
    sa: usize,
    sb: usize,
    add: Vec<String>,
}

impl Acc {
    spec fn model(&self, cs: Seq<char>) -> HeaderView {
        HeaderView {
            start: self.start,
            duration: self.duration,
            sig: cs.subrange(self.sa as int, self.sb as int),
            key: self.key,
            add: fields_view(self.add@),
            header: Seq::empty(),
            omit_body: false,
        }
    }

    /// Applies the item `cs[a..b]`.
    fn apply_item(&mut self, src: &str, cs: &Vec<char>, a: usize, b: usize) -> (r: Result<
        (),
        &'static str,
    >)
        requires
            cs@ == src@,
            a <= b <= cs@.len(),
            old(self).sa <= old(self).sb <= cs@.len(),
        ensures
            final(self).sa <= final(self).sb <= cs@.len(),
            match apply_param(old(self).model(cs@), cs@.subrange(a as int, b as int)) {
                Ok(m) => r is Ok && final(self).model(cs@) == m,
                Err(e) => r matches Err(x) && x@ == e,
            },
    {
        let ghost m0 = self.model(cs@);
        let (ia, ib) = trim_range(cs, a, b);
        let ghost it = cs@.subrange(ia as int, ib as int);
        let q = match find_in(cs, ia, ib, '=') {
            Some(q) => q,
            None => {
                return Err("separator");
            },
        };
        assert(it.subrange(0, q - ia) =~= cs@.subrange(ia as int, q as int));
        assert(it.subrange(q - ia + 1, it.len() as int) =~= cs@.subrange(q + 1, ib as int));
        let (na, nb) = trim_range(cs, ia, q);
        let (va, vb) = trim_range(cs, q + 1, ib);
        let ghost value = cs@.subrange(va as int, vb as int);
        if range_eq(cs, na, nb, "add") {
            self.add = split_fields(src, cs, va, vb);
            assert(self.model(cs@) == HeaderView { add: split(value, '+'), ..m0 });
            Ok(())
        } else if range_eq(cs, na, nb, "key") {
            match parse_uint_in(cs, va, vb, 0xffff_ffff) {
                Some(k) => {
                    self.key = k as u32;
                    assert(self.model(cs@) == HeaderView { key: k as u32, ..m0 });
                    Ok(())
                },
                None => Err("key"),
            }
        } else if range_eq(cs, na, nb, "sig") {
            self.sa = va;
            self.sb = vb;
            assert(self.model(cs@) == HeaderView { sig: value, ..m0 });
            Ok(())
        } else if range_eq(cs, na, nb, "time") {
            let j = match find_in(cs, va, vb, '+') {
                Some(j) => j,
                None => {
                    return Err("time");
                },
            };
            assert(value.subrange(0, j - va) =~= cs@.subrange(va as int, j as int));
            assert(value.subrange(j - va + 1, value.len() as int) =~= cs@.subrange(
                j + 1,
                vb as int,
            ));
            let s = match parse_uint_in(cs, va, j, 0xffff_ffff_ffff_ffff) {
                Some(s) => s,
                None => {
                    return Err("start");
                },
            };
            let d = match parse_uint_in(cs, j + 1, vb, 0xffff_ffff_ffff_ffff) {
                Some(d) => d,
                None => {
                    return Err("duration");
                },
            };
            self.start = s;
            self.duration = d;
            assert(self.model(cs@) == HeaderView { start: s, duration: d, ..m0 });
            Ok(())
        } else {
            Err("unknown param")
        }
    }
}

/// Whether `v` holds a string equal to `s`.
fn contains_field(v: &Vec<String>, s: &String) -> (r: bool)
    ensures
        r == fields_view(v@).contains(s@),
{
    let mut i: usize = 0;
    while i < v.len()
        invariant
            i <= v@.len(),
            forall|k: int| 0 <= k < i ==> v@[k]@ != s@,
        decreases v@.len() - i,
    {
        if v[i] == *s {
            assert(fields_view(v@)[i as int] == s@);
            return true;
        }
        i = i + 1;
    }
    assert forall|k: int| 0 <= k < fields_view(v@).len() implies fields_view(v@)[k] != s@ by {}
    false
}

/// `residual(cs, cs[sa..sb])` as a `String`.
fn residual_text(src: &str, cs: &Vec<char>, sa: usize, sb: usize) -> (r: String)
    requires
        cs@ == src@,
        sa <= sb <= cs@.len(),
    ensures
        r@ == residual(cs@, cs@.subrange(sa as int, sb as int)),
{
    let n = cs.len();
    match find_sub_in(cs, sa, sb) {
        Some(i) => {
            let right = src.substring_char(i + (sb - sa), n);
            let mut text = match rfind_in(cs, i, ',') {
                Some(k) => {
                    assert(cs@.subrange(0, i as int).subrange(0, k as int) =~= cs@.subrange(
                        0,
                        k as int,
                    ));
                    string_of(src, cs, 0, k)
                },
                None => string_of(src, cs, 0, i),
            };
            text.append(right);
            text
        },
        None => src.to_owned(),
    }
}

impl AuthHeader {
    /// Parses an `authorization` header value; the error names what is wrong
    /// with it.
    #[verifier::rlimit(40)]
    pub fn new(header: &str) -> (r: Result<Self, &'static str>)
        ensures
            match parse_header(header@) {
                Ok(v) => r matches Ok(h) && h@ == v,
                Err(e) => r matches Err(m) && m@ == e,
            },
    {
        let cs = chars_of(header);
        let n = cs.len();
        let mut a: usize = 0;
        assert(cs@.subrange(0, n as int) =~= cs@);
        while a < n && is_ws_exec(cs[a])
            invariant
                cs@ == header@,
                n == cs@.len(),
                a <= n,
                trim_start(header@) == trim_start(cs@.subrange(a as int, n as int)),
            decreases n - a,
        {
            assert(cs@.subrange(a as int, n as int).drop_first() =~= cs@.subrange(
                a + 1,
                n as int,
            ));
            a = a + 1;
        }
        let ghost t = cs@.subrange(a as int, n as int);
        assert(trim_start(header@) == t);
        let sl = "alpico ".unicode_len();
        if n - a < sl || !range_eq(&cs, a, a + sl, "alpico ") {
            proof {
                if n - a >= sl {
                    assert(t.subrange(0, sl as int) =~= cs@.subrange(a as int, a + sl));
                }
            }
            return Err("scheme unsupported");
        }
        assert(t.subrange(0, sl as int) =~= cs@.subrange(a as int, a + sl));
        let p0 = a + sl;
        assert(t.subrange(sl as int, t.len() as int) =~= cs@.subrange(p0 as int, n as int));
        let ghost items = split(cs@.subrange(p0 as int, n as int), ',');
        assert(parse_header(header@) == match apply_params(initial_view(), items) {
            Err(e) => Err(e),
            Ok(p) => Ok(
                HeaderView {
                    header: residual(header@, p.sig),
                    omit_body: p.add.contains(nobody_field()),
                    ..p
                },
            ),
        });

        let mut add: Vec<String> = Vec::new();
        add.push("-method".to_owned());
        add.push("-path".to_owned());
        let mut acc = Acc { start: 0, duration: 0, key: 0, sa: 0, sb: 0, add };
        assert(fields_view(acc.add@) =~= default_fields());
        assert(cs@.subrange(0, 0) =~= Seq::<char>::empty());
        assert(acc.model(cs@) == initial_view());
        let mut pos = p0;
        loop
            invariant
                parse_header(header@) == match apply_params(initial_view(), items) {
                    Err(e) => Err(e),
                    Ok(p) => Ok(
                        HeaderView {
                            header: residual(header@, p.sig),
                            omit_body: p.add.contains(nobody_field()),
                            ..p
                        },
                    ),
                },
                cs@ == header@,
                n == cs@.len(),
                p0 <= pos <= n,
                acc.sa <= acc.sb <= n,
                apply_params(initial_view(), items) == apply_params(
                    acc.model(cs@),
                    split(cs@.subrange(pos as int, n as int), ','),
                ),
            ensures
                cs@ == header@,
                acc.sa <= acc.sb <= n,
                apply_params(initial_view(), items) == Ok::<HeaderView, Seq<char>>(
                    acc.model(cs@),
                ),
            decreases n - pos,
        {
            let ghost rest = cs@.subrange(pos as int, n as int);
            let ghost before = acc.model(cs@);
            let found = find_in(&cs, pos, n, ',');
            let end = match found {
                Some(e) => e,
                None => n,
            };
            let ghost item = cs@.subrange(pos as int, end as int);
            proof {
                match found {
                    Some(e) => {
                        assert(rest.subrange(0, e - pos) =~= item);
                        assert(rest.subrange(e - pos + 1, rest.len() as int) =~= cs@.subrange(
                            e + 1,
                            n as int,
                        ));
                    },
                    None => {
                        assert(rest =~= item);
                    },
                }
                assert(split(rest, ',').len() > 0);
                assert(split(rest, ',')[0] == item);
            }
            match acc.apply_item(header, &cs, pos, end) {
                Ok(()) => {},
                Err(m) => {
                    assert(apply_params(before, split(rest, ',')) == Err::<HeaderView, Seq<char>>(
                        m@,
                    ));
                    return Err(m);
                },
            }
            match found {
                Some(e) => {
                    assert(split(rest, ',').drop_first() =~= split(
                        cs@.subrange(e + 1, n as int),
                        ',',
                    ));
                    pos = e + 1;
                },
                None => {
                    assert(split(rest, ',').drop_first() =~= Seq::<Seq<char>>::empty());
                    assert(apply_params(before, split(rest, ',')) == apply_params(
                        acc.model(cs@),
                        split(rest, ',').drop_first(),
                    ));
                    assert(apply_params(acc.model(cs@), Seq::<Seq<char>>::empty()) == Ok::<
                        HeaderView,
                        Seq<char>,
                    >(acc.model(cs@)));
                    break ;
                },
            }
        }
        let Acc { start, duration, key, sa, sb, add } = acc;
        let sig = string_of(header, &cs, sa, sb);
        let nobody = "-nobody".to_owned();
        let omit_body = contains_field(&add, &nobody);
        let text = residual_text(header, &cs, sa, sb);
        Ok(AuthHeader { start, duration, sig, key, add, header: text, omit_body })
    }
}

} // verus!
