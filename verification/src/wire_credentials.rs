use vstd::prelude::*;
use crate::codec::{
    append_lit, append_str_enc, append_u32, chars_to_string, chars_eq_lit, dec_digits, eat_lit,
    enc_str, is_digit, lemma_enc_str_bounds, lemma_prefix_split, lemma_subrange_join, parse_string,
    parse_u32, prefix_of, str_to_chars,
};
use crate::credentials::{
    BusinessDetails, BusinessDetailsV, Credentials, CredentialsRole, CredentialsRoleV,
    CredentialsV, Logo, LogoCategory, LogoV, Role,
};

verus! {

// ---------------------------------------------------------------------------
// Enumeration tags
// ---------------------------------------------------------------------------

/// The wire tag of a business role.
pub open spec fn role_token(r: Role) -> Seq<char> {
    match r {
        Role::Cpo => "cpo"@,
        Role::Emsp => "emsp"@,
        Role::Hub => "hub"@,
    }
}

/// The wire tag of a logo category.
pub open spec fn category_token(c: LogoCategory) -> Seq<char> {
    match c {
        LogoCategory::Operator => "operator"@,
        LogoCategory::Provider => "provider"@,
    }
}

pub open spec fn enc_role(r: Role) -> Seq<char> {
    enc_str(role_token(r))
}

pub open spec fn enc_logo_category(c: LogoCategory) -> Seq<char> {
    enc_str(category_token(c))
}

impl Role {
    /// The wire tag of the role.
    pub fn as_str(self) -> (r: &'static str)
        ensures
            r@ == role_token(self),
    {
        match self {
            Role::Cpo => "cpo",
            Role::Emsp => "emsp",
            Role::Hub => "hub",
        }
    }
}

impl LogoCategory {
    /// The wire tag of the category.
    pub fn as_str(self) -> (r: &'static str)
        ensures
            r@ == category_token(self),
    {
        match self {
            LogoCategory::Operator => "operator",
            LogoCategory::Provider => "provider",
        }
    }
}

/// Parse a role tag with its quotes.
pub fn parse_role(s: &Vec<char>, i: usize) -> (r: Option<(Role, usize)>)
    ensures
        r matches Some(p) ==> i < p.1 <= s@.len() && s@.subrange(i as int, p.1 as int)
            == enc_role(p.0),
        forall|m: Role| #[trigger] prefix_of(enc_role(m), s@, i as int) ==> (match r {
            Some(p) => p.0 == m && p.1 == i + enc_role(m).len(),
            None => false,
        }),
{
    proof {
        reveal_strlit("cpo");
        reveal_strlit("emsp");
        reveal_strlit("hub");
        assert forall|m: Role| #[trigger] prefix_of(enc_role(m), s@, i as int) implies prefix_of(
            enc_str(role_token(m)),
            s@,
            i as int,
        ) by {}
        assert("cpo"@.len() == 3 && "cpo"@[0] == 'c');
        assert("emsp"@.len() == 4 && "emsp"@[0] == 'e');
        assert("hub"@.len() == 3 && "hub"@[0] == 'h');
    }
    match parse_string(s, i) {
        None => None,
        Some((t, j)) => {
            let out = if chars_eq_lit(&t, "cpo") {
                Some(Role::Cpo)
            } else if chars_eq_lit(&t, "emsp") {
                Some(Role::Emsp)
            } else if chars_eq_lit(&t, "hub") {
                Some(Role::Hub)
            } else {
                None
            };
            match out {
                Some(n) => Some((n, j)),
                None => None,
            }
        },
    }
}

/// Parse a logo category tag with its quotes.
pub fn parse_logo_category(s: &Vec<char>, i: usize) -> (r: Option<(LogoCategory, usize)>)
    ensures
        r matches Some(p) ==> i < p.1 <= s@.len() && s@.subrange(i as int, p.1 as int)
            == enc_logo_category(p.0),
        forall|m: LogoCategory| #[trigger] prefix_of(enc_logo_category(m), s@, i as int)
            ==> (match r {
            Some(p) => p.0 == m && p.1 == i + enc_logo_category(m).len(),
            None => false,
        }),
{
    proof {
        reveal_strlit("operator");
        reveal_strlit("provider");
        assert forall|m: LogoCategory| #[trigger] prefix_of(enc_logo_category(m), s@, i as int)
            implies prefix_of(enc_str(category_token(m)), s@, i as int) by {}
        assert("operator"@.len() == 8 && "operator"@[0] == 'o');
        assert("provider"@.len() == 8 && "provider"@[0] == 'p');
    }
    match parse_string(s, i) {
        None => None,
        Some((t, j)) => {
            let out = if chars_eq_lit(&t, "operator") {
                Some(LogoCategory::Operator)
            } else if chars_eq_lit(&t, "provider") {
                Some(LogoCategory::Provider)
            } else {
                None
            };
            match out {
                Some(n) => Some((n, j)),
                None => None,
            }
        },
    }
}

// ---------------------------------------------------------------------------
// Optional strings
// ---------------------------------------------------------------------------

/// The wire form of an optional string: `null` or the JSON string.
pub open spec fn enc_opt_str(o: Option<Seq<char>>) -> Seq<char> {
    match o {
        Some(t) => enc_str(t),
        None => "null"@,
    }
}

/// Append the wire form of an optional string field.
pub fn append_opt_str(out: &mut Vec<char>, o: &Option<String>)
    ensures
        final(out)@ == old(out)@ + enc_opt_str(o.deep_view()),
{
    match o {
        Some(t) => append_str_enc(out, t.as_str()),
        None => append_lit(out, "null"),
    }
}

/// Parse an optional string: `null` or one JSON string.
pub fn parse_opt_string(s: &Vec<char>, i: usize) -> (r: Option<(Option<Vec<char>>, usize)>)
    ensures
        r matches Some(p) ==> i < p.1 <= s@.len() && s@.subrange(i as int, p.1 as int)
            == enc_opt_str(p.0.deep_view()),
        forall|o: Option<Seq<char>>| #[trigger] prefix_of(enc_opt_str(o), s@, i as int)
            ==> (match r {
            Some(p) => p.0.deep_view() == o && p.1 == i + enc_opt_str(o).len(),
            None => false,
        }),
{
    proof {
        reveal_strlit("null");
        assert forall|o: Option<Seq<char>>| #[trigger] prefix_of(enc_opt_str(o), s@, i as int)
            && o is Some implies prefix_of(enc_str(o->0), s@, i as int) && s@[i as int] == '"' by {
            lemma_enc_str_bounds(o->0, s@, i as int);
        }
        assert forall|o: Option<Seq<char>>| #[trigger] prefix_of(enc_opt_str(o), s@, i as int)
            && o is None implies s@[i as int] == 'n' by {
            assert(s@.subrange(i as int, i + "null"@.len())[0] == "null"@[0]);
        }
    }
    match eat_lit(s, i, "null") {
        Some(j) => {
            proof {
                assert(s@.subrange(i as int, i + "null"@.len())[0] == "null"@[0]);
            }
            let o: Option<Vec<char>> = None;
            Some((o, j))
        },
        None => {
            match parse_string(s, i) {
                Some((t, j)) => {
                    let o: Option<Vec<char>> = Some(t);
                    proof {
                        assert(o.deep_view() == Some(t@));
                    }
                    Some((o, j))
                },
                None => None,
            }
        },
    }
}


// ---------------------------------------------------------------------------
// Logo
// ---------------------------------------------------------------------------

/// The wire form of a `Logo`; the `image_type` field carries the wire name
/// "type".
pub open spec fn enc_logo(w: LogoV) -> Seq<char> {
    "{\"url\":"@ + enc_str(w.url) + ",\"thumbnail\":"@ + enc_opt_str(w.thumbnail)
        + ",\"category\":"@ + enc_logo_category(w.category) + ",\"type\":"@ + enc_str(w.image_type)
        + ",\"width\":"@ + dec_digits(w.width as int) + ",\"height\":"@ + dec_digits(
        w.height as int,
    ) + "}"@
}


/// Where a `Logo` encoding sits at `i`, this places its parts; the character
/// after each numeral is a comma or brace, never another digit.
pub proof fn lemma_logo_parts(w: LogoV, s: Seq<char>, i: int)
    requires
        prefix_of(enc_logo(w), s, i),
    ensures
        prefix_of("{\"url\":"@, s, i),
        prefix_of(enc_str(w.url), s, i + "{\"url\":"@.len()),
        prefix_of(",\"thumbnail\":"@, s, i + "{\"url\":"@.len() + enc_str(w.url).len()),
        prefix_of(enc_opt_str(w.thumbnail), s, i + "{\"url\":"@.len() + enc_str(w.url).len() + ",\"thumbnail\":"@.len()),
        prefix_of(",\"category\":"@, s, i + "{\"url\":"@.len() + enc_str(w.url).len() + ",\"thumbnail\":"@.len() + enc_opt_str(w.thumbnail).len()),
        prefix_of(enc_logo_category(w.category), s, i + "{\"url\":"@.len() + enc_str(w.url).len() + ",\"thumbnail\":"@.len() + enc_opt_str(w.thumbnail).len() + ",\"category\":"@.len()),
        prefix_of(",\"type\":"@, s, i + "{\"url\":"@.len() + enc_str(w.url).len() + ",\"thumbnail\":"@.len() + enc_opt_str(w.thumbnail).len() + ",\"category\":"@.len() + enc_logo_category(w.category).len()),
        prefix_of(enc_str(w.image_type), s, i + "{\"url\":"@.len() + enc_str(w.url).len() + ",\"thumbnail\":"@.len() + enc_opt_str(w.thumbnail).len() + ",\"category\":"@.len() + enc_logo_category(w.category).len() + ",\"type\":"@.len()),
        prefix_of(",\"width\":"@, s, i + "{\"url\":"@.len() + enc_str(w.url).len() + ",\"thumbnail\":"@.len() + enc_opt_str(w.thumbnail).len() + ",\"category\":"@.len() + enc_logo_category(w.category).len() + ",\"type\":"@.len() + enc_str(w.image_type).len()),
        prefix_of(dec_digits(w.width as int), s, i + "{\"url\":"@.len() + enc_str(w.url).len() + ",\"thumbnail\":"@.len() + enc_opt_str(w.thumbnail).len() + ",\"category\":"@.len() + enc_logo_category(w.category).len() + ",\"type\":"@.len() + enc_str(w.image_type).len() + ",\"width\":"@.len()),
        prefix_of(",\"height\":"@, s, i + "{\"url\":"@.len() + enc_str(w.url).len() + ",\"thumbnail\":"@.len() + enc_opt_str(w.thumbnail).len() + ",\"category\":"@.len() + enc_logo_category(w.category).len() + ",\"type\":"@.len() + enc_str(w.image_type).len() + ",\"width\":"@.len() + dec_digits(w.width as int).len()),
        prefix_of(dec_digits(w.height as int), s, i + "{\"url\":"@.len() + enc_str(w.url).len() + ",\"thumbnail\":"@.len() + enc_opt_str(w.thumbnail).len() + ",\"category\":"@.len() + enc_logo_category(w.category).len() + ",\"type\":"@.len() + enc_str(w.image_type).len() + ",\"width\":"@.len() + dec_digits(w.width as int).len() + ",\"height\":"@.len()),
        prefix_of("}"@, s, i + "{\"url\":"@.len() + enc_str(w.url).len() + ",\"thumbnail\":"@.len() + enc_opt_str(w.thumbnail).len() + ",\"category\":"@.len() + enc_logo_category(w.category).len() + ",\"type\":"@.len() + enc_str(w.image_type).len() + ",\"width\":"@.len() + dec_digits(w.width as int).len() + ",\"height\":"@.len() + dec_digits(w.height as int).len()),
        s[i] == '{',
        !is_digit(s[i + "{\"url\":"@.len() + enc_str(w.url).len() + ",\"thumbnail\":"@.len()
            + enc_opt_str(w.thumbnail).len() + ",\"category\":"@.len() + enc_logo_category(
            w.category,
        ).len() + ",\"type\":"@.len() + enc_str(w.image_type).len() + ",\"width\":"@.len()
            + dec_digits(w.width as int).len()]),
        !is_digit(s[i + "{\"url\":"@.len() + enc_str(w.url).len() + ",\"thumbnail\":"@.len()
            + enc_opt_str(w.thumbnail).len() + ",\"category\":"@.len() + enc_logo_category(
            w.category,
        ).len() + ",\"type\":"@.len() + enc_str(w.image_type).len() + ",\"width\":"@.len()
            + dec_digits(w.width as int).len() + ",\"height\":"@.len() + dec_digits(
            w.height as int,
        ).len()]),
{
    let a = "{\"url\":"@;
    let b = enc_str(w.url);
    let c = ",\"thumbnail\":"@;
    let d = enc_opt_str(w.thumbnail);
    let e = ",\"category\":"@;
    let f = enc_logo_category(w.category);
    let g = ",\"type\":"@;
    let h = enc_str(w.image_type);
    let ii = ",\"width\":"@;
    let j = dec_digits(w.width as int);
    let k = ",\"height\":"@;
    let l = dec_digits(w.height as int);
    let m = "}"@;
    lemma_prefix_split(a + b + c + d + e + f + g + h + ii + j + k + l, m, s, i);
    lemma_prefix_split(a + b + c + d + e + f + g + h + ii + j + k, l, s, i);
    lemma_prefix_split(a + b + c + d + e + f + g + h + ii + j, k, s, i);
    lemma_prefix_split(a + b + c + d + e + f + g + h + ii, j, s, i);
    lemma_prefix_split(a + b + c + d + e + f + g + h, ii, s, i);
    lemma_prefix_split(a + b + c + d + e + f + g, h, s, i);
    lemma_prefix_split(a + b + c + d + e + f, g, s, i);
    lemma_prefix_split(a + b + c + d + e, f, s, i);
    lemma_prefix_split(a + b + c + d, e, s, i);
    lemma_prefix_split(a + b + c, d, s, i);
    lemma_prefix_split(a + b, c, s, i);
    lemma_prefix_split(a, b, s, i);
    reveal_strlit("{\"url\":");
    reveal_strlit(",\"height\":");
    reveal_strlit("}");
    assert(s.subrange(i, i + a.len())[0] == a[0]);
    let pk = i + a.len() + b.len() + c.len() + d.len() + e.len() + f.len() + g.len() + h.len()
        + ii.len() + j.len();
    assert(s.subrange(pk, pk + k.len())[0] == k[0]);
    let pm = pk + k.len() + l.len();
    assert(s.subrange(pm, pm + m.len())[0] == m[0]);
}


/// Encode a `Logo` onto `out`.
pub fn append_logo(out: &mut Vec<char>, l: &Logo)
    ensures
        final(out)@ == old(out)@ + enc_logo(l@),
{
    append_lit(out, "{\"url\":");
    append_str_enc(out, l.url.as_str());
    append_lit(out, ",\"thumbnail\":");
    append_opt_str(out, &l.thumbnail);
    append_lit(out, ",\"category\":");
    append_str_enc(out, l.category.as_str());
    append_lit(out, ",\"type\":");
    append_str_enc(out, l.image_type.as_str());
    append_lit(out, ",\"width\":");
    append_u32(out, l.width);
    append_lit(out, ",\"height\":");
    append_u32(out, l.height);
    append_lit(out, "}");
    proof {
        assert(out@ =~= old(out)@ + enc_logo(l@));
    }
}


/// Parse a `Logo` starting at `i`.
#[verifier::rlimit(100)]
pub fn parse_logo(s: &Vec<char>, i: usize) -> (r: Option<(Logo, usize)>)
    ensures
        r matches Some(p) ==> i < p.1 <= s@.len() && s@.subrange(i as int, p.1 as int)
            == enc_logo(p.0@),
        forall|w: LogoV| #[trigger] prefix_of(enc_logo(w), s@, i as int) ==> (match r {
            Some(p) => p.0@ == w && p.1 == i + enc_logo(w).len(),
            None => false,
        }),
{
    let j0 = match eat_lit(s, i, "{\"url\":") {
        Some(j) => j,
        None => {
            proof {
                assert forall|w: LogoV| !prefix_of(enc_logo(w), s@, i as int) by {
                    if prefix_of(enc_logo(w), s@, i as int) {
                        lemma_logo_parts(w, s@, i as int);
                    }
                }
            }
            return None;
        },
    };
    let (url_v, j1) = match parse_string(s, j0) {
        Some(p) => p,
        None => {
            proof {
                assert forall|w: LogoV| !prefix_of(enc_logo(w), s@, i as int) by {
                    if prefix_of(enc_logo(w), s@, i as int) {
                        lemma_logo_parts(w, s@, i as int);
                    }
                }
            }
            return None;
        },
    };
    let j2 = match eat_lit(s, j1, ",\"thumbnail\":") {
        Some(j) => j,
        None => {
            proof {
                assert forall|w: LogoV| !prefix_of(enc_logo(w), s@, i as int) by {
                    if prefix_of(enc_logo(w), s@, i as int) {
                        lemma_logo_parts(w, s@, i as int);
                    }
                }
            }
            return None;
        },
    };
    let (thumb_v, j3) = match parse_opt_string(s, j2) {
        Some(p) => p,
        None => {
            proof {
                assert forall|w: LogoV| !prefix_of(enc_logo(w), s@, i as int) by {
                    if prefix_of(enc_logo(w), s@, i as int) {
                        lemma_logo_parts(w, s@, i as int);
                    }
                }
            }
            return None;
        },
    };
    let j4 = match eat_lit(s, j3, ",\"category\":") {
        Some(j) => j,
        None => {
            proof {
                assert forall|w: LogoV| !prefix_of(enc_logo(w), s@, i as int) by {
                    if prefix_of(enc_logo(w), s@, i as int) {
                        lemma_logo_parts(w, s@, i as int);
                    }
                }
            }
            return None;
        },
    };
    let (cat_v, j5) = match parse_logo_category(s, j4) {
        Some(p) => p,
        None => {
            proof {
                assert forall|w: LogoV| !prefix_of(enc_logo(w), s@, i as int) by {
                    if prefix_of(enc_logo(w), s@, i as int) {
                        lemma_logo_parts(w, s@, i as int);
                    }
                }
            }
            return None;
        },
    };
    let j6 = match eat_lit(s, j5, ",\"type\":") {
        Some(j) => j,
        None => {
            proof {
                assert forall|w: LogoV| !prefix_of(enc_logo(w), s@, i as int) by {
                    if prefix_of(enc_logo(w), s@, i as int) {
                        lemma_logo_parts(w, s@, i as int);
                    }
                }
            }
            return None;
        },
    };
    let (ty_v, j7) = match parse_string(s, j6) {
        Some(p) => p,
        None => {
            proof {
                assert forall|w: LogoV| !prefix_of(enc_logo(w), s@, i as int) by {
                    if prefix_of(enc_logo(w), s@, i as int) {
                        lemma_logo_parts(w, s@, i as int);
                    }
                }
            }
            return None;
        },
    };
    let j8 = match eat_lit(s, j7, ",\"width\":") {
        Some(j) => j,
        None => {
            proof {
                assert forall|w: LogoV| !prefix_of(enc_logo(w), s@, i as int) by {
                    if prefix_of(enc_logo(w), s@, i as int) {
                        lemma_logo_parts(w, s@, i as int);
                    }
                }
            }
            return None;
        },
    };
    let (width_v, j9) = match parse_u32(s, j8) {
        Some(p) => p,
        None => {
            proof {
                assert forall|w: LogoV| !prefix_of(enc_logo(w), s@, i as int) by {
                    if prefix_of(enc_logo(w), s@, i as int) {
                        lemma_logo_parts(w, s@, i as int);
                    }
                }
            }
            return None;
        },
    };
    let j10 = match eat_lit(s, j9, ",\"height\":") {
        Some(j) => j,
        None => {
            proof {
                assert forall|w: LogoV| !prefix_of(enc_logo(w), s@, i as int) by {
                    if prefix_of(enc_logo(w), s@, i as int) {
                        lemma_logo_parts(w, s@, i as int);
                    }
                }
            }
            return None;
        },
    };
    let (height_v, j11) = match parse_u32(s, j10) {
        Some(p) => p,
        None => {
            proof {
                assert forall|w: LogoV| !prefix_of(enc_logo(w), s@, i as int) by {
                    if prefix_of(enc_logo(w), s@, i as int) {
                        lemma_logo_parts(w, s@, i as int);
                    }
                }
            }
            return None;
        },
    };
    let j12 = match eat_lit(s, j11, "}") {
        Some(j) => j,
        None => {
            proof {
                assert forall|w: LogoV| !prefix_of(enc_logo(w), s@, i as int) by {
                    if prefix_of(enc_logo(w), s@, i as int) {
                        lemma_logo_parts(w, s@, i as int);
                    }
                }
            }
            return None;
        },
    };
    let res = Logo {
        url: chars_to_string(&url_v),
        thumbnail: match &thumb_v {
            Some(t) => Some(chars_to_string(t)),
            None => None,
        },
        category: cat_v,
        image_type: chars_to_string(&ty_v),
        width: width_v,
        height: height_v,
    };
    proof {
        lemma_subrange_join(s@, i as int, j0 as int, j1 as int);
        lemma_subrange_join(s@, i as int, j1 as int, j2 as int);
        lemma_subrange_join(s@, i as int, j2 as int, j3 as int);
        lemma_subrange_join(s@, i as int, j3 as int, j4 as int);
        lemma_subrange_join(s@, i as int, j4 as int, j5 as int);
        lemma_subrange_join(s@, i as int, j5 as int, j6 as int);
        lemma_subrange_join(s@, i as int, j6 as int, j7 as int);
        lemma_subrange_join(s@, i as int, j7 as int, j8 as int);
        lemma_subrange_join(s@, i as int, j8 as int, j9 as int);
        lemma_subrange_join(s@, i as int, j9 as int, j10 as int);
        lemma_subrange_join(s@, i as int, j10 as int, j11 as int);
        lemma_subrange_join(s@, i as int, j11 as int, j12 as int);
        assert(res@.url == url_v@);
        assert(res@.thumbnail == thumb_v.deep_view());
        assert(res@.image_type == ty_v@);
        assert(res@.category == cat_v && res@.width == width_v && res@.height == height_v);
        assert(s@.subrange(i as int, j12 as int) =~= enc_logo(res@));
        assert forall|w: LogoV| #[trigger] prefix_of(enc_logo(w), s@, i as int)
            implies res@ == w && j12 == i + enc_logo(w).len() by {
            lemma_logo_parts(w, s@, i as int);
            assert(res@ =~= w);
        }
    }
    Some((res, j12))
}


/// The wire form of an optional logo: `null` or the logo record.
pub open spec fn enc_opt_logo(o: Option<LogoV>) -> Seq<char> {
    match o {
        Some(l) => enc_logo(l),
        None => "null"@,
    }
}

/// Append the wire form of an optional logo field.
pub fn append_opt_logo(out: &mut Vec<char>, o: &Option<Logo>)
    ensures
        final(out)@ == old(out)@ + enc_opt_logo(o.deep_view()),
{
    match o {
        Some(l) => append_logo(out, l),
        None => append_lit(out, "null"),
    }
}

/// Parse an optional logo: `null` or one logo record.
pub fn parse_opt_logo(s: &Vec<char>, i: usize) -> (r: Option<(Option<Logo>, usize)>)
    ensures
        r matches Some(p) ==> i < p.1 <= s@.len() && s@.subrange(i as int, p.1 as int)
            == enc_opt_logo(p.0.deep_view()),
        forall|o: Option<LogoV>| #[trigger] prefix_of(enc_opt_logo(o), s@, i as int) ==> (match r {
            Some(p) => p.0.deep_view() == o && p.1 == i + enc_opt_logo(o).len(),
            None => false,
        }),
{
    proof {
        reveal_strlit("null");
        assert forall|o: Option<LogoV>| #[trigger] prefix_of(enc_opt_logo(o), s@, i as int)
            && o is Some implies prefix_of(enc_logo(o->0), s@, i as int) && s@[i as int] == '{' by {
            lemma_logo_parts(o->0, s@, i as int);
        }
        assert forall|o: Option<LogoV>| #[trigger] prefix_of(enc_opt_logo(o), s@, i as int)
            && o is None implies s@[i as int] == 'n' by {
            assert(s@.subrange(i as int, i + "null"@.len())[0] == "null"@[0]);
        }
    }
    match eat_lit(s, i, "null") {
        Some(j) => {
            proof {
                assert(s@.subrange(i as int, i + "null"@.len())[0] == "null"@[0]);
            }
            let o: Option<Logo> = None;
            Some((o, j))
        },
        None => {
            match parse_logo(s, i) {
                Some((l, j)) => {
                    let o: Option<Logo> = Some(l);
                    proof {
                        assert(o.deep_view() == Some(l@));
                    }
                    Some((o, j))
                },
                None => None,
            }
        },
    }
}


// ---------------------------------------------------------------------------
// BusinessDetails
// ---------------------------------------------------------------------------

/// The wire form of a `BusinessDetails`.
pub open spec fn enc_business_details(w: BusinessDetailsV) -> Seq<char> {
    "{\"name\":"@ + enc_str(w.name) + ",\"logo\":"@ + enc_opt_logo(w.logo) + ",\"website\":"@
        + enc_opt_str(w.website) + "}"@
}


/// Where a `BusinessDetails` encoding sits at `i`, this places its parts.
pub proof fn lemma_business_details_parts(w: BusinessDetailsV, s: Seq<char>, i: int)
    requires
        prefix_of(enc_business_details(w), s, i),
    ensures
        prefix_of("{\"name\":"@, s, i),
        prefix_of(enc_str(w.name), s, i + "{\"name\":"@.len()),
        prefix_of(",\"logo\":"@, s, i + "{\"name\":"@.len() + enc_str(w.name).len()),
        prefix_of(enc_opt_logo(w.logo), s, i + "{\"name\":"@.len() + enc_str(w.name).len() + ",\"logo\":"@.len()),
        prefix_of(",\"website\":"@, s, i + "{\"name\":"@.len() + enc_str(w.name).len() + ",\"logo\":"@.len() + enc_opt_logo(w.logo).len()),
        prefix_of(enc_opt_str(w.website), s, i + "{\"name\":"@.len() + enc_str(w.name).len() + ",\"logo\":"@.len() + enc_opt_logo(w.logo).len() + ",\"website\":"@.len()),
        prefix_of("}"@, s, i + "{\"name\":"@.len() + enc_str(w.name).len() + ",\"logo\":"@.len() + enc_opt_logo(w.logo).len() + ",\"website\":"@.len() + enc_opt_str(w.website).len()),
        s[i] == '{',
{
    let a = "{\"name\":"@;
    let b = enc_str(w.name);
    let c = ",\"logo\":"@;
    let d = enc_opt_logo(w.logo);
    let e = ",\"website\":"@;
    let f = enc_opt_str(w.website);
    let g = "}"@;
    lemma_prefix_split(a + b + c + d + e + f, g, s, i);
    lemma_prefix_split(a + b + c + d + e, f, s, i);
    lemma_prefix_split(a + b + c + d, e, s, i);
    lemma_prefix_split(a + b + c, d, s, i);
    lemma_prefix_split(a + b, c, s, i);
    lemma_prefix_split(a, b, s, i);
    reveal_strlit("{\"name\":");
    assert(s.subrange(i, i + a.len())[0] == a[0]);
}


/// Encode a `BusinessDetails` onto `out`.
pub fn append_business_details(out: &mut Vec<char>, b: &BusinessDetails)
    ensures
        final(out)@ == old(out)@ + enc_business_details(b@),
{
    append_lit(out, "{\"name\":");
    append_str_enc(out, b.name.as_str());
    append_lit(out, ",\"logo\":");
    append_opt_logo(out, &b.logo);
    append_lit(out, ",\"website\":");
    append_opt_str(out, &b.website);
    append_lit(out, "}");
    proof {
        assert(out@ =~= old(out)@ + enc_business_details(b@));
    }
}


/// Parse a `BusinessDetails` starting at `i`.
#[verifier::rlimit(100)]
pub fn parse_business_details(s: &Vec<char>, i: usize) -> (r: Option<(BusinessDetails, usize)>)
    ensures
        r matches Some(p) ==> i < p.1 <= s@.len() && s@.subrange(i as int, p.1 as int)
            == enc_business_details(p.0@),
        forall|w: BusinessDetailsV| #[trigger] prefix_of(enc_business_details(w), s@, i as int) ==> (match r {
            Some(p) => p.0@ == w && p.1 == i + enc_business_details(w).len(),
            None => false,
        }),
{
    let j0 = match eat_lit(s, i, "{\"name\":") {
        Some(j) => j,
        None => {
            proof {
                assert forall|w: BusinessDetailsV| !prefix_of(enc_business_details(w), s@, i as int) by {
                    if prefix_of(enc_business_details(w), s@, i as int) {
                        lemma_business_details_parts(w, s@, i as int);
                    }
                }
            }
            return None;
        },
    };
    let (name_v, j1) = match parse_string(s, j0) {
        Some(p) => p,
        None => {
            proof {
                assert forall|w: BusinessDetailsV| !prefix_of(enc_business_details(w), s@, i as int) by {
                    if prefix_of(enc_business_details(w), s@, i as int) {
                        lemma_business_details_parts(w, s@, i as int);
                    }
                }
            }
            return None;
        },
    };
    let j2 = match eat_lit(s, j1, ",\"logo\":") {
        Some(j) => j,
        None => {
            proof {
                assert forall|w: BusinessDetailsV| !prefix_of(enc_business_details(w), s@, i as int) by {
                    if prefix_of(enc_business_details(w), s@, i as int) {
                        lemma_business_details_parts(w, s@, i as int);
                    }
                }
            }
            return None;
        },
    };
    let (logo_v, j3) = match parse_opt_logo(s, j2) {
        Some(p) => p,
        None => {
            proof {
                assert forall|w: BusinessDetailsV| !prefix_of(enc_business_details(w), s@, i as int) by {
                    if prefix_of(enc_business_details(w), s@, i as int) {
                        lemma_business_details_parts(w, s@, i as int);
                    }
                }
            }
            return None;
        },
    };
    let j4 = match eat_lit(s, j3, ",\"website\":") {
        Some(j) => j,
        None => {
            proof {
                assert forall|w: BusinessDetailsV| !prefix_of(enc_business_details(w), s@, i as int) by {
                    if prefix_of(enc_business_details(w), s@, i as int) {
                        lemma_business_details_parts(w, s@, i as int);
                    }
                }
            }
            return None;
        },
    };
    let (web_v, j5) = match parse_opt_string(s, j4) {
        Some(p) => p,
        None => {
            proof {
                assert forall|w: BusinessDetailsV| !prefix_of(enc_business_details(w), s@, i as int) by {
                    if prefix_of(enc_business_details(w), s@, i as int) {
                        lemma_business_details_parts(w, s@, i as int);
                    }
                }
            }
            return None;
        },
    };
    let j6 = match eat_lit(s, j5, "}") {
        Some(j) => j,
        None => {
            proof {
                assert forall|w: BusinessDetailsV| !prefix_of(enc_business_details(w), s@, i as int) by {
                    if prefix_of(enc_business_details(w), s@, i as int) {
                        lemma_business_details_parts(w, s@, i as int);
                    }
                }
            }
            return None;
        },
    };
    let res = BusinessDetails {
        name: chars_to_string(&name_v),
        logo: logo_v,
        website: match &web_v {
            Some(t) => Some(chars_to_string(t)),
            None => None,
        },
    };
    proof {
        lemma_subrange_join(s@, i as int, j0 as int, j1 as int);
        lemma_subrange_join(s@, i as int, j1 as int, j2 as int);
        lemma_subrange_join(s@, i as int, j2 as int, j3 as int);
        lemma_subrange_join(s@, i as int, j3 as int, j4 as int);
        lemma_subrange_join(s@, i as int, j4 as int, j5 as int);
        lemma_subrange_join(s@, i as int, j5 as int, j6 as int);
        assert(res@.name == name_v@);
        assert(res@.logo == logo_v.deep_view());
        assert(res@.website == web_v.deep_view());
        assert(s@.subrange(i as int, j6 as int) =~= enc_business_details(res@));
        assert forall|w: BusinessDetailsV| #[trigger] prefix_of(enc_business_details(w), s@, i as int)
            implies res@ == w && j6 == i + enc_business_details(w).len() by {
            lemma_business_details_parts(w, s@, i as int);
            assert(res@ =~= w);
        }
    }
    Some((res, j6))
}

// ---------------------------------------------------------------------------
// CredentialsRole
// ---------------------------------------------------------------------------

/// The wire form of a `CredentialsRole`.
pub open spec fn enc_credentials_role(w: CredentialsRoleV) -> Seq<char> {
    "{\"role\":"@ + enc_role(w.role) + ",\"party_id\":"@ + enc_str(w.party_id)
        + ",\"country_code\":"@ + enc_str(w.country_code) + ",\"business_details\":"@
        + enc_business_details(w.business_details) + "}"@
}

/// Where a `CredentialsRole` encoding sits at `i`, this places its parts.
pub proof fn lemma_credentials_role_parts(w: CredentialsRoleV, s: Seq<char>, i: int)
    requires
        prefix_of(enc_credentials_role(w), s, i),
    ensures
        prefix_of("{\"role\":"@, s, i),
        prefix_of(enc_role(w.role), s, i + "{\"role\":"@.len()),
        prefix_of(",\"party_id\":"@, s, i + "{\"role\":"@.len() + enc_role(w.role).len()),
        prefix_of(
            enc_str(w.party_id),
            s,
            i + "{\"role\":"@.len() + enc_role(w.role).len() + ",\"party_id\":"@.len(),
        ),
        prefix_of(
            ",\"country_code\":"@,
            s,
            i + "{\"role\":"@.len() + enc_role(w.role).len() + ",\"party_id\":"@.len() + enc_str(
                w.party_id,
            ).len(),
        ),
        prefix_of(
            enc_str(w.country_code),
            s,
            i + "{\"role\":"@.len() + enc_role(w.role).len() + ",\"party_id\":"@.len() + enc_str(
                w.party_id,
            ).len() + ",\"country_code\":"@.len(),
        ),
        prefix_of(
            ",\"business_details\":"@,
            s,
            i + "{\"role\":"@.len() + enc_role(w.role).len() + ",\"party_id\":"@.len() + enc_str(
                w.party_id,
            ).len() + ",\"country_code\":"@.len() + enc_str(w.country_code).len(),
        ),
        prefix_of(
            enc_business_details(w.business_details),
            s,
            i + "{\"role\":"@.len() + enc_role(w.role).len() + ",\"party_id\":"@.len() + enc_str(
                w.party_id,
            ).len() + ",\"country_code\":"@.len() + enc_str(w.country_code).len()
                + ",\"business_details\":"@.len(),
        ),
        prefix_of(
            "}"@,
            s,
            i + "{\"role\":"@.len() + enc_role(w.role).len() + ",\"party_id\":"@.len() + enc_str(
                w.party_id,
            ).len() + ",\"country_code\":"@.len() + enc_str(w.country_code).len()
                + ",\"business_details\":"@.len() + enc_business_details(w.business_details).len(),
        ),
        s[i] == '{',
{
    let a = "{\"role\":"@;
    let b = enc_role(w.role);
    let c = ",\"party_id\":"@;
    let d = enc_str(w.party_id);
    let e = ",\"country_code\":"@;
    let f = enc_str(w.country_code);
    let g = ",\"business_details\":"@;
    let h = enc_business_details(w.business_details);
    let k = "}"@;
    lemma_prefix_split(a + b + c + d + e + f + g + h, k, s, i);
    lemma_prefix_split(a + b + c + d + e + f + g, h, s, i);
    lemma_prefix_split(a + b + c + d + e + f, g, s, i);
    lemma_prefix_split(a + b + c + d + e, f, s, i);
    lemma_prefix_split(a + b + c + d, e, s, i);
    lemma_prefix_split(a + b + c, d, s, i);
    lemma_prefix_split(a + b, c, s, i);
    lemma_prefix_split(a, b, s, i);
    reveal_strlit("{\"role\":");
    assert(s.subrange(i, i + a.len())[0] == a[0]);
}

/// Encode a `CredentialsRole` onto `out`.
pub fn append_credentials_role(out: &mut Vec<char>, c: &CredentialsRole)
    ensures
        final(out)@ == old(out)@ + enc_credentials_role(c@),
{
    append_lit(out, "{\"role\":");
    append_str_enc(out, c.role.as_str());
    append_lit(out, ",\"party_id\":");
    append_str_enc(out, c.party_id.as_str());
    append_lit(out, ",\"country_code\":");
    append_str_enc(out, c.country_code.as_str());
    append_lit(out, ",\"business_details\":");
    append_business_details(out, &c.business_details);
    append_lit(out, "}");
    proof {
        assert(out@ =~= old(out)@ + enc_credentials_role(c@));
    }
}


/// Parse a `CredentialsRole` starting at `i`.
#[verifier::rlimit(40)]
pub fn parse_credentials_role(s: &Vec<char>, i: usize) -> (r: Option<(CredentialsRole, usize)>)
    ensures
        r matches Some(p) ==> i < p.1 <= s@.len() && s@.subrange(i as int, p.1 as int)
            == enc_credentials_role(p.0@),
        forall|w: CredentialsRoleV| #[trigger] prefix_of(enc_credentials_role(w), s@, i as int)
            ==> (match r {
            Some(p) => p.0@ == w && p.1 == i + enc_credentials_role(w).len(),
            None => false,
        }),
{
    let j0 = match eat_lit(s, i, "{\"role\":") {
        Some(j) => j,
        None => {
            proof {
                assert forall|w: CredentialsRoleV| !prefix_of(
                    enc_credentials_role(w),
                    s@,
                    i as int,
                ) by {
                    if prefix_of(enc_credentials_role(w), s@, i as int) {
                        lemma_credentials_role_parts(w, s@, i as int);
                    }
                }
            }
            return None;
        },
    };
    let (role_v, j1) = match parse_role(s, j0) {
        Some(p) => p,
        None => {
            proof {
                assert forall|w: CredentialsRoleV| !prefix_of(
                    enc_credentials_role(w),
                    s@,
                    i as int,
                ) by {
                    if prefix_of(enc_credentials_role(w), s@, i as int) {
                        lemma_credentials_role_parts(w, s@, i as int);
                    }
                }
            }
            return None;
        },
    };
    let j2 = match eat_lit(s, j1, ",\"party_id\":") {
        Some(j) => j,
        None => {
            proof {
                assert forall|w: CredentialsRoleV| !prefix_of(
                    enc_credentials_role(w),
                    s@,
                    i as int,
                ) by {
                    if prefix_of(enc_credentials_role(w), s@, i as int) {
                        lemma_credentials_role_parts(w, s@, i as int);
                    }
                }
            }
            return None;
        },
    };
    let (pid_v, j3) = match parse_string(s, j2) {
        Some(p) => p,
        None => {
            proof {
                assert forall|w: CredentialsRoleV| !prefix_of(
                    enc_credentials_role(w),
                    s@,
                    i as int,
                ) by {
                    if prefix_of(enc_credentials_role(w), s@, i as int) {
                        lemma_credentials_role_parts(w, s@, i as int);
                    }
                }
            }
            return None;
        },
    };
    let j4 = match eat_lit(s, j3, ",\"country_code\":") {
        Some(j) => j,
        None => {
            proof {
                assert forall|w: CredentialsRoleV| !prefix_of(
                    enc_credentials_role(w),
                    s@,
                    i as int,
                ) by {
                    if prefix_of(enc_credentials_role(w), s@, i as int) {
                        lemma_credentials_role_parts(w, s@, i as int);
                    }
                }
            }
            return None;
        },
    };
    let (cc_v, j5) = match parse_string(s, j4) {
        Some(p) => p,
        None => {
            proof {
                assert forall|w: CredentialsRoleV| !prefix_of(
                    enc_credentials_role(w),
                    s@,
                    i as int,
                ) by {
                    if prefix_of(enc_credentials_role(w), s@, i as int) {
                        lemma_credentials_role_parts(w, s@, i as int);
                    }
                }
            }
            return None;
        },
    };
    let j6 = match eat_lit(s, j5, ",\"business_details\":") {
        Some(j) => j,
        None => {
            proof {
                assert forall|w: CredentialsRoleV| !prefix_of(
                    enc_credentials_role(w),
                    s@,
                    i as int,
                ) by {
                    if prefix_of(enc_credentials_role(w), s@, i as int) {
                        lemma_credentials_role_parts(w, s@, i as int);
                    }
                }
            }
            return None;
        },
    };
    let (bd_v, j7) = match parse_business_details(s, j6) {
        Some(p) => p,
        None => {
            proof {
                assert forall|w: CredentialsRoleV| !prefix_of(
                    enc_credentials_role(w),
                    s@,
                    i as int,
                ) by {
                    if prefix_of(enc_credentials_role(w), s@, i as int) {
                        lemma_credentials_role_parts(w, s@, i as int);
                    }
                }
            }
            return None;
        },
    };
    let j8 = match eat_lit(s, j7, "}") {
        Some(j) => j,
        None => {
            proof {
                assert forall|w: CredentialsRoleV| !prefix_of(
                    enc_credentials_role(w),
                    s@,
                    i as int,
                ) by {
                    if prefix_of(enc_credentials_role(w), s@, i as int) {
                        lemma_credentials_role_parts(w, s@, i as int);
                    }
                }
            }
            return None;
        },
    };
    let res = CredentialsRole {
        role: role_v,
        party_id: chars_to_string(&pid_v),
        country_code: chars_to_string(&cc_v),
        business_details: bd_v,
    };
    proof {
        lemma_subrange_join(s@, i as int, j0 as int, j1 as int);
        lemma_subrange_join(s@, i as int, j1 as int, j2 as int);
        lemma_subrange_join(s@, i as int, j2 as int, j3 as int);
        lemma_subrange_join(s@, i as int, j3 as int, j4 as int);
        lemma_subrange_join(s@, i as int, j4 as int, j5 as int);
        lemma_subrange_join(s@, i as int, j5 as int, j6 as int);
        lemma_subrange_join(s@, i as int, j6 as int, j7 as int);
        lemma_subrange_join(s@, i as int, j7 as int, j8 as int);
        assert(s@.subrange(i as int, j8 as int) =~= enc_credentials_role(res@));
        assert forall|w: CredentialsRoleV| #[trigger] prefix_of(
            enc_credentials_role(w),
            s@,
            i as int,
        ) implies res@ == w && j8 == i + enc_credentials_role(w).len() by {
            lemma_credentials_role_parts(w, s@, i as int);
            assert(res@ =~= w);
        }
    }
    Some((res, j8))
}


// ---------------------------------------------------------------------------
// Role arrays
// ---------------------------------------------------------------------------

/// The wire form of the tail of a roles array.
pub open spec fn enc_role_rest(s: Seq<CredentialsRoleV>) -> Seq<char>
    decreases s.len(),
{
    if s.len() == 0 {
        "]"@
    } else {
        ","@ + enc_credentials_role(s[0]) + enc_role_rest(s.skip(1))
    }
}

/// The wire form of a roles array.
pub open spec fn enc_role_list(s: Seq<CredentialsRoleV>) -> Seq<char> {
    if s.len() == 0 {
        "[]"@
    } else {
        "["@ + enc_credentials_role(s[0]) + enc_role_rest(s.skip(1))
    }
}

/// Encode the tail of a roles array, elements `k` onward, onto `out`.
pub fn append_role_rest(out: &mut Vec<char>, v: &Vec<CredentialsRole>, k: usize)
    requires
        k <= v@.len(),
    ensures
        final(out)@ == old(out)@ + enc_role_rest(v.deep_view().skip(k as int)),
    decreases v@.len() - k,
{
    if k == v.len() {
        append_lit(out, "]");
        proof {
            assert(v.deep_view().skip(k as int) =~= Seq::<CredentialsRoleV>::empty());
        }
    } else {
        append_lit(out, ",");
        append_credentials_role(out, &v[k]);
        append_role_rest(out, v, k + 1);
        proof {
            assert(v.deep_view().skip(k as int)[0] == v.deep_view()[k as int]);
            assert(v.deep_view().skip(k as int).skip(1) =~= v.deep_view().skip(k as int + 1));
            assert(out@ =~= old(out)@ + enc_role_rest(v.deep_view().skip(k as int)));
        }
    }
}

/// Encode a roles array onto `out`.
pub fn append_role_list(out: &mut Vec<char>, v: &Vec<CredentialsRole>)
    ensures
        final(out)@ == old(out)@ + enc_role_list(v.deep_view()),
{
    if v.len() == 0 {
        append_lit(out, "[]");
    } else {
        append_lit(out, "[");
        append_credentials_role(out, &v[0]);
        append_role_rest(out, v, 1);
        proof {
            assert(v.deep_view()[0] == v@[0]@);
            assert(out@ =~= old(out)@ + enc_role_list(v.deep_view()));
        }
    }
}

/// Parse the tail of a roles array.
pub fn parse_role_rest(s: &Vec<char>, i: usize) -> (r: Option<(Vec<CredentialsRole>, usize)>)
    ensures
        r matches Some(p) ==> i < p.1 <= s@.len() && s@.subrange(i as int, p.1 as int)
            == enc_role_rest(p.0.deep_view()),
        forall|w: Seq<CredentialsRoleV>| #[trigger] prefix_of(enc_role_rest(w), s@, i as int)
            ==> (match r {
            Some(p) => p.0.deep_view() == w && p.1 == i + enc_role_rest(w).len(),
            None => false,
        }),
    decreases s@.len() - i,
{
    proof {
        reveal_strlit("]");
        reveal_strlit(",");
    }
    match eat_lit(s, i, "]") {
        Some(j) => {
            let v: Vec<CredentialsRole> = Vec::new();
            proof {
                assert(v.deep_view() =~= Seq::<CredentialsRoleV>::empty());
                assert forall|w: Seq<CredentialsRoleV>| #[trigger] prefix_of(
                    enc_role_rest(w),
                    s@,
                    i as int,
                ) implies w == v.deep_view() && j == i + enc_role_rest(w).len() by {
                    if w.len() > 0 {
                        lemma_prefix_split(
                            ","@ + enc_credentials_role(w[0]),
                            enc_role_rest(w.skip(1)),
                            s@,
                            i as int,
                        );
                        lemma_prefix_split(","@, enc_credentials_role(w[0]), s@, i as int);
                        assert(s@.subrange(i as int, i as int + 1)[0] == ","@[0]);
                        assert(s@.subrange(i as int, i as int + 1)[0] == "]"@[0]);
                        assert(false);
                    }
                    assert(w =~= v.deep_view());
                }
            }
            Some((v, j))
        },
        None => {
            let j0 = match eat_lit(s, i, ",") {
                Some(j) => j,
                None => {
                    proof {
                        assert forall|w: Seq<CredentialsRoleV>| !prefix_of(
                            enc_role_rest(w),
                            s@,
                            i as int,
                        ) by {
                            if prefix_of(enc_role_rest(w), s@, i as int) {
                                if w.len() > 0 {
                                    lemma_prefix_split(
                                        ","@ + enc_credentials_role(w[0]),
                                        enc_role_rest(w.skip(1)),
                                        s@,
                                        i as int,
                                    );
                                    lemma_prefix_split(
                                        ","@,
                                        enc_credentials_role(w[0]),
                                        s@,
                                        i as int,
                                    );
                                }
                            }
                        }
                    }
                    return None;
                },
            };
            let (e, j1) = match parse_credentials_role(s, j0) {
                Some(p) => p,
                None => {
                    proof {
                        assert forall|w: Seq<CredentialsRoleV>| !prefix_of(
                            enc_role_rest(w),
                            s@,
                            i as int,
                        ) by {
                            if prefix_of(enc_role_rest(w), s@, i as int) {
                                if w.len() > 0 {
                                    lemma_prefix_split(
                                        ","@ + enc_credentials_role(w[0]),
                                        enc_role_rest(w.skip(1)),
                                        s@,
                                        i as int,
                                    );
                                    lemma_prefix_split(
                                        ","@,
                                        enc_credentials_role(w[0]),
                                        s@,
                                        i as int,
                                    );
                                }
                            }
                        }
                    }
                    return None;
                },
            };
            let (rest, j2) = match parse_role_rest(s, j1) {
                Some(p) => p,
                None => {
                    proof {
                        assert forall|w: Seq<CredentialsRoleV>| !prefix_of(
                            enc_role_rest(w),
                            s@,
                            i as int,
                        ) by {
                            if prefix_of(enc_role_rest(w), s@, i as int) {
                                if w.len() > 0 {
                                    lemma_prefix_split(
                                        ","@ + enc_credentials_role(w[0]),
                                        enc_role_rest(w.skip(1)),
                                        s@,
                                        i as int,
                                    );
                                    lemma_prefix_split(
                                        ","@,
                                        enc_credentials_role(w[0]),
                                        s@,
                                        i as int,
                                    );
                                }
                            }
                        }
                    }
                    return None;
                },
            };
            let mut v = rest;
            v.insert(0, e);
            proof {
                lemma_subrange_join(s@, i as int, j0 as int, j1 as int);
                lemma_subrange_join(s@, i as int, j1 as int, j2 as int);
                assert(v.deep_view() =~= seq![e@] + rest.deep_view());
                assert(v.deep_view().len() > 0);
                assert(v.deep_view()[0] == e@);
                assert(v.deep_view().skip(1) =~= rest.deep_view());
                assert(s@.subrange(i as int, j2 as int) =~= enc_role_rest(v.deep_view()));
                assert forall|w: Seq<CredentialsRoleV>| #[trigger] prefix_of(
                    enc_role_rest(w),
                    s@,
                    i as int,
                ) implies v.deep_view() == w && j2 == i + enc_role_rest(w).len() by {
                    if w.len() == 0 {
                        assert(false);
                    } else {
                        lemma_prefix_split(
                            ","@ + enc_credentials_role(w[0]),
                            enc_role_rest(w.skip(1)),
                            s@,
                            i as int,
                        );
                        lemma_prefix_split(","@, enc_credentials_role(w[0]), s@, i as int);
                        assert(v.deep_view() =~= w);
                    }
                }
            }
            Some((v, j2))
        },
    }
}

/// Parse a roles array starting at `i`.
pub fn parse_role_list(s: &Vec<char>, i: usize) -> (r: Option<(Vec<CredentialsRole>, usize)>)
    ensures
        r matches Some(p) ==> i < p.1 <= s@.len() && s@.subrange(i as int, p.1 as int)
            == enc_role_list(p.0.deep_view()),
        forall|w: Seq<CredentialsRoleV>| #[trigger] prefix_of(enc_role_list(w), s@, i as int)
            ==> (match r {
            Some(p) => p.0.deep_view() == w && p.1 == i + enc_role_list(w).len(),
            None => false,
        }),
{
    proof {
        reveal_strlit("[");
        reveal_strlit("]");
        reveal_strlit("[]");
        assert("[]"@ =~= "["@ + "]"@);
        assert forall|w: Seq<CredentialsRoleV>| #[trigger] prefix_of(
            enc_role_list(w),
            s@,
            i as int,
        ) implies prefix_of("["@, s@, i as int) && (if w.len() == 0 {
            prefix_of("]"@, s@, i + 1)
        } else {
            prefix_of(enc_credentials_role(w[0]), s@, i + 1) && prefix_of(
                enc_role_rest(w.skip(1)),
                s@,
                i + 1 + enc_credentials_role(w[0]).len(),
            )
        }) by {
            if w.len() == 0 {
                lemma_prefix_split("["@, "]"@, s@, i as int);
            } else {
                lemma_prefix_split(
                    "["@ + enc_credentials_role(w[0]),
                    enc_role_rest(w.skip(1)),
                    s@,
                    i as int,
                );
                lemma_prefix_split("["@, enc_credentials_role(w[0]), s@, i as int);
            }
        }
    }
    let j0 = match eat_lit(s, i, "[") {
        Some(j) => j,
        None => {
            return None;
        },
    };
    match eat_lit(s, j0, "]") {
        Some(j1) => {
            let v: Vec<CredentialsRole> = Vec::new();
            proof {
                assert(v.deep_view() =~= Seq::<CredentialsRoleV>::empty());
                assert(s@.subrange(i as int, j1 as int) =~= "[]"@) by {
                    lemma_subrange_join(s@, i as int, j0 as int, j1 as int);
                }
                assert forall|w: Seq<CredentialsRoleV>| #[trigger] prefix_of(
                    enc_role_list(w),
                    s@,
                    i as int,
                ) implies w == v.deep_view() && j1 == i + enc_role_list(w).len() by {
                    if w.len() > 0 {
                        lemma_credentials_role_parts(w[0], s@, i as int + 1);
                        assert(s@.subrange(j0 as int, j0 as int + 1)[0] == "]"@[0]);
                        assert(false);
                    }
                    assert(w =~= v.deep_view());
                }
            }
            Some((v, j1))
        },
        None => {
            let (e, j1) = match parse_credentials_role(s, j0) {
                Some(p) => p,
                None => {
                    proof {
                        assert forall|w: Seq<CredentialsRoleV>| !prefix_of(
                            enc_role_list(w),
                            s@,
                            i as int,
                        ) by {
                            if prefix_of(enc_role_list(w), s@, i as int) && w.len() == 0 {
                            }
                        }
                    }
                    return None;
                },
            };
            let (rest, j2) = match parse_role_rest(s, j1) {
                Some(p) => p,
                None => {
                    proof {
                        assert forall|w: Seq<CredentialsRoleV>| !prefix_of(
                            enc_role_list(w),
                            s@,
                            i as int,
                        ) by {
                            if prefix_of(enc_role_list(w), s@, i as int) && w.len() == 0 {
                            }
                        }
                    }
                    return None;
                },
            };
            let mut v = rest;
            v.insert(0, e);
            proof {
                lemma_subrange_join(s@, i as int, j0 as int, j1 as int);
                lemma_subrange_join(s@, i as int, j1 as int, j2 as int);
                assert(v.deep_view() =~= seq![e@] + rest.deep_view());
                assert(v.deep_view().len() > 0);
                assert(v.deep_view()[0] == e@);
                assert(v.deep_view().skip(1) =~= rest.deep_view());
                assert(s@.subrange(i as int, j2 as int) =~= enc_role_list(v.deep_view()));
                assert forall|w: Seq<CredentialsRoleV>| #[trigger] prefix_of(
                    enc_role_list(w),
                    s@,
                    i as int,
                ) implies v.deep_view() == w && j2 == i + enc_role_list(w).len() by {
                    if w.len() == 0 {
                        assert(false);
                    } else {
                        assert(v.deep_view() =~= w);
                    }
                }
            }
            Some((v, j2))
        },
    }
}


// ---------------------------------------------------------------------------
// Credentials
// ---------------------------------------------------------------------------

/// The wire form of a `Credentials`.
pub open spec fn enc_credentials(w: CredentialsV) -> Seq<char> {
    "{\"token\":"@ + enc_str(w.token) + ",\"url\":"@ + enc_str(w.url) + ",\"roles\":"@
        + enc_role_list(w.roles) + "}"@
}

/// Where a `Credentials` encoding sits at `i`, this places its parts.
pub proof fn lemma_credentials_parts(w: CredentialsV, s: Seq<char>, i: int)
    requires
        prefix_of(enc_credentials(w), s, i),
    ensures
        prefix_of("{\"token\":"@, s, i),
        prefix_of(enc_str(w.token), s, i + "{\"token\":"@.len()),
        prefix_of(",\"url\":"@, s, i + "{\"token\":"@.len() + enc_str(w.token).len()),
        prefix_of(
            enc_str(w.url),
            s,
            i + "{\"token\":"@.len() + enc_str(w.token).len() + ",\"url\":"@.len(),
        ),
        prefix_of(
            ",\"roles\":"@,
            s,
            i + "{\"token\":"@.len() + enc_str(w.token).len() + ",\"url\":"@.len() + enc_str(
                w.url,
            ).len(),
        ),
        prefix_of(
            enc_role_list(w.roles),
            s,
            i + "{\"token\":"@.len() + enc_str(w.token).len() + ",\"url\":"@.len() + enc_str(
                w.url,
            ).len() + ",\"roles\":"@.len(),
        ),
        prefix_of(
            "}"@,
            s,
            i + "{\"token\":"@.len() + enc_str(w.token).len() + ",\"url\":"@.len() + enc_str(
                w.url,
            ).len() + ",\"roles\":"@.len() + enc_role_list(w.roles).len(),
        ),
{
    let a = "{\"token\":"@;
    let b = enc_str(w.token);
    let c = ",\"url\":"@;
    let d = enc_str(w.url);
    let e = ",\"roles\":"@;
    let f = enc_role_list(w.roles);
    let g = "}"@;
    lemma_prefix_split(a + b + c + d + e + f, g, s, i);
    lemma_prefix_split(a + b + c + d + e, f, s, i);
    lemma_prefix_split(a + b + c + d, e, s, i);
    lemma_prefix_split(a + b + c, d, s, i);
    lemma_prefix_split(a + b, c, s, i);
    lemma_prefix_split(a, b, s, i);
}


/// Parse a `Credentials` starting at `i`.
#[verifier::rlimit(40)]
pub fn parse_credentials(s: &Vec<char>, i: usize) -> (r: Option<(Credentials, usize)>)
    ensures
        r matches Some(p) ==> i < p.1 <= s@.len() && s@.subrange(i as int, p.1 as int)
            == enc_credentials(p.0@),
        forall|w: CredentialsV| #[trigger] prefix_of(enc_credentials(w), s@, i as int)
            ==> (match r {
            Some(p) => p.0@ == w && p.1 == i + enc_credentials(w).len(),
            None => false,
        }),
{
    let j0 = match eat_lit(s, i, "{\"token\":") {
        Some(j) => j,
        None => {
            proof {
                assert forall|w: CredentialsV| !prefix_of(enc_credentials(w), s@, i as int) by {
                    if prefix_of(enc_credentials(w), s@, i as int) {
                        lemma_credentials_parts(w, s@, i as int);
                    }
                }
            }
            return None;
        },
    };
    let (tok_v, j1) = match parse_string(s, j0) {
        Some(p) => p,
        None => {
            proof {
                assert forall|w: CredentialsV| !prefix_of(enc_credentials(w), s@, i as int) by {
                    if prefix_of(enc_credentials(w), s@, i as int) {
                        lemma_credentials_parts(w, s@, i as int);
                    }
                }
            }
            return None;
        },
    };
    let j2 = match eat_lit(s, j1, ",\"url\":") {
        Some(j) => j,
        None => {
            proof {
                assert forall|w: CredentialsV| !prefix_of(enc_credentials(w), s@, i as int) by {
                    if prefix_of(enc_credentials(w), s@, i as int) {
                        lemma_credentials_parts(w, s@, i as int);
                    }
                }
            }
            return None;
        },
    };
    let (url_v, j3) = match parse_string(s, j2) {
        Some(p) => p,
        None => {
            proof {
                assert forall|w: CredentialsV| !prefix_of(enc_credentials(w), s@, i as int) by {
                    if prefix_of(enc_credentials(w), s@, i as int) {
                        lemma_credentials_parts(w, s@, i as int);
                    }
                }
            }
            return None;
        },
    };
    let j4 = match eat_lit(s, j3, ",\"roles\":") {
        Some(j) => j,
        None => {
            proof {
                assert forall|w: CredentialsV| !prefix_of(enc_credentials(w), s@, i as int) by {
                    if prefix_of(enc_credentials(w), s@, i as int) {
                        lemma_credentials_parts(w, s@, i as int);
                    }
                }
            }
            return None;
        },
    };
    let (roles_v, j5) = match parse_role_list(s, j4) {
        Some(p) => p,
        None => {
            proof {
                assert forall|w: CredentialsV| !prefix_of(enc_credentials(w), s@, i as int) by {
                    if prefix_of(enc_credentials(w), s@, i as int) {
                        lemma_credentials_parts(w, s@, i as int);
                    }
                }
            }
            return None;
        },
    };
    let j6 = match eat_lit(s, j5, "}") {
        Some(j) => j,
        None => {
            proof {
                assert forall|w: CredentialsV| !prefix_of(enc_credentials(w), s@, i as int) by {
                    if prefix_of(enc_credentials(w), s@, i as int) {
                        lemma_credentials_parts(w, s@, i as int);
                    }
                }
            }
            return None;
        },
    };
    let res = Credentials {
        token: chars_to_string(&tok_v),
        url: chars_to_string(&url_v),
        roles: roles_v,
    };
    proof {
        lemma_subrange_join(s@, i as int, j0 as int, j1 as int);
        lemma_subrange_join(s@, i as int, j1 as int, j2 as int);
        lemma_subrange_join(s@, i as int, j2 as int, j3 as int);
        lemma_subrange_join(s@, i as int, j3 as int, j4 as int);
        lemma_subrange_join(s@, i as int, j4 as int, j5 as int);
        lemma_subrange_join(s@, i as int, j5 as int, j6 as int);
        assert(s@.subrange(i as int, j6 as int) =~= enc_credentials(res@));
        assert forall|w: CredentialsV| #[trigger] prefix_of(enc_credentials(w), s@, i as int)
            implies res@ == w && j6 == i + enc_credentials(w).len() by {
            lemma_credentials_parts(w, s@, i as int);
            assert(res@ =~= w);
        }
    }
    Some((res, j6))
}

/// The JSON body of one `CredentialsRole` record.
pub fn encode_credentials_role(c: &CredentialsRole) -> (r: String)
    ensures
        r@ == enc_credentials_role(c@),
{
    let mut out: Vec<char> = Vec::new();
    append_credentials_role(&mut out, c);
    proof {
        assert(out@ =~= enc_credentials_role(c@));
    }
    chars_to_string(&out)
}

/// Decode one `CredentialsRole` record from a JSON body. Returns the record
/// exactly when the body is the canonical encoding of one, so decoding
/// inverts `encode_credentials_role`.
pub fn decode_credentials_role(s: &str) -> (r: Option<CredentialsRole>)
    ensures
        r matches Some(c) ==> s@ == enc_credentials_role(c@),
        forall|w: CredentialsRoleV| s@ == enc_credentials_role(w) ==> (r matches Some(c) && c@
            == w),
{
    let cs = str_to_chars(s);
    proof {
        assert forall|w: CredentialsRoleV| s@ == enc_credentials_role(w) implies prefix_of(
            enc_credentials_role(w),
            cs@,
            0,
        ) by {
            assert(cs@.subrange(0, enc_credentials_role(w).len() as int) =~= enc_credentials_role(
                w,
            ));
        }
    }
    match parse_credentials_role(&cs, 0) {
        Some((c, j)) => {
            if j == cs.len() {
                proof {
                    assert(cs@.subrange(0, j as int) =~= cs@);
                }
                Some(c)
            } else {
                None
            }
        },
        None => None,
    }
}

/// The JSON body of one `Credentials` record.
pub fn encode_credentials(c: &Credentials) -> (r: String)
    ensures
        r@ == enc_credentials(c@),
{
    let mut out: Vec<char> = Vec::new();
    append_lit(&mut out, "{\"token\":");
    append_str_enc(&mut out, c.token.as_str());
    append_lit(&mut out, ",\"url\":");
    append_str_enc(&mut out, c.url.as_str());
    append_lit(&mut out, ",\"roles\":");
    append_role_list(&mut out, &c.roles);
    append_lit(&mut out, "}");
    proof {
        assert(out@ =~= enc_credentials(c@));
    }
    chars_to_string(&out)
}

/// Decode one `Credentials` record from a JSON body. Returns the record
/// exactly when the body is the canonical encoding of one, so decoding
/// inverts `encode_credentials`.
pub fn decode_credentials(s: &str) -> (r: Option<Credentials>)
    ensures
        r matches Some(c) ==> s@ == enc_credentials(c@),
        forall|w: CredentialsV| s@ == enc_credentials(w) ==> (r matches Some(c) && c@ == w),
{
    let cs = str_to_chars(s);
    proof {
        assert forall|w: CredentialsV| s@ == enc_credentials(w) implies prefix_of(
            enc_credentials(w),
            cs@,
            0,
        ) by {
            assert(cs@.subrange(0, enc_credentials(w).len() as int) =~= enc_credentials(w));
        }
    }
    match parse_credentials(&cs, 0) {
        Some((c, j)) => {
            if j == cs.len() {
                proof {
                    assert(cs@.subrange(0, j as int) =~= cs@);
                }
                Some(c)
            } else {
                None
            }
        },
        None => None,
    }
}

} // verus!
