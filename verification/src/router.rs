use vstd::prelude::*;

use crate::method::Method;
use crate::middleware::compression::{compressed, spec_accepts_gzip};
use crate::middleware::{Handler, MiddlewareKind, Next};
use crate::not_found;
use crate::request::{Request, RequestContext};
use crate::strmap::{distinct_keys, lookup, lower_chars, str_eq, EntryView, StrMap};
use crate::Response;

verus! {

/// The first index of `c` in `s`, or `s.len()` if absent.
pub open spec fn find_char(s: Seq<char>, c: char) -> int
    decreases s.len(),
{
    if s.len() == 0 {
        0
    } else if s[0] == c {
        0
    } else {
        1 + find_char(s.drop_first(), c)
    }
}

pub proof fn lemma_find_char(s: Seq<char>, c: char)
    ensures
        0 <= find_char(s, c) <= s.len(),
        find_char(s, c) < s.len() ==> s[find_char(s, c)] == c,
        forall|j: int| 0 <= j < find_char(s, c) ==> s[j] != c,
    decreases s.len(),
{
    if s.len() > 0 && s[0] != c {
        lemma_find_char(s.drop_first(), c);
        assert(forall|j: int| 1 <= j < s.len() ==> s[j] == s.drop_first()[j - 1]);
    }
}

proof fn lemma_find_char_is(s: Seq<char>, c: char, i: int)
    requires
        0 <= i <= s.len(),
        i < s.len() ==> s[i] == c,
        forall|j: int| 0 <= j < i ==> s[j] != c,
        i == s.len() ==> forall|j: int| 0 <= j < s.len() ==> s[j] != c,
    ensures
        find_char(s, c) == i,
    decreases s.len(),
{
    if s.len() > 0 && s[0] != c {
        lemma_find_char_is(s.drop_first(), c, i - 1);
    }
}

/// The first index of `c` in `s` at or after `from`, or the length.
fn find_char_from(s: &str, from: usize, c: char) -> (r: usize)
    requires
        from <= s@.len(),
    ensures
        from <= r <= s@.len(),
        r - from == find_char(s@.skip(from as int), c),
{
    let n = s.unicode_len();
    let mut i = from;
    while i < n
        invariant
            from <= i <= n,
            n == s@.len(),
            forall|j: int| from <= j < i ==> s@[j] != c,
        decreases n - i,
    {
        if s.get_char(i) == c {
            proof {
                let u = s@.skip(from as int);
                assert(forall|j: int| 0 <= j < u.len() ==> u[j] == s@[j + from]);
                lemma_find_char_is(u, c, i - from);
            }
            return i;
        }
        i = i + 1;
    }
    proof {
        let u = s@.skip(from as int);
        assert(forall|j: int| 0 <= j < u.len() ==> u[j] == s@[j + from]);
        lemma_find_char_is(u, c, n - from);
    }
    n
}

/// Splitting on a separator character; empty pieces are kept.
pub open spec fn spec_split_chars(s: Seq<char>, sep: char) -> Seq<Seq<char>>
    decreases s.len(),
    via spec_split_chars_dec
{
    let i = find_char(s, sep);
    if i == s.len() {
        seq![s]
    } else {
        seq![s.take(i)] + spec_split_chars(s.skip(i + 1), sep)
    }
}

#[via_fn]
proof fn spec_split_chars_dec(s: Seq<char>, sep: char) {
    lemma_find_char(s, sep);
}

/// Splits a string on a separator character, keeping empty pieces.
pub fn split_str<'a>(s: &'a str, sep: char) -> (r: Vec<&'a str>)
    ensures
        r@.len() == spec_split_chars(s@, sep).len(),
        forall|i: int| 0 <= i < r@.len() ==> r@[i]@ == spec_split_chars(s@, sep)[i],
{
    let n = s.unicode_len();
    let mut r: Vec<&str> = Vec::new();
    let ghost mut done: Seq<Seq<char>> = Seq::empty();
    let mut pos: usize = 0;
    proof {
        assert(s@.skip(0) =~= s@);
    }
    loop
        invariant_except_break
            pos <= n,
            n == s@.len(),
            done.len() == r@.len(),
            forall|i: int| 0 <= i < done.len() ==> r@[i]@ == done[i],
            spec_split_chars(s@, sep) == done + spec_split_chars(s@.skip(pos as int), sep),
        ensures
            r@.len() == spec_split_chars(s@, sep).len(),
            forall|i: int| 0 <= i < r@.len() ==> r@[i]@ == spec_split_chars(s@, sep)[i],
        decreases n - pos,
    {
        let e = find_char_from(s, pos, sep);
        let piece = s.substring_char(pos, e);
        let ghost u = s@.skip(pos as int);
        proof {
            assert(piece@ =~= u.take(e - pos));
        }
        if e == n {
            r.push(piece);
            proof {
                assert(u.take(e - pos) =~= u);
                assert(spec_split_chars(u, sep) =~= seq![u]);
                done = done.push(u);
                assert(spec_split_chars(s@, sep) =~= done);
                assert(forall|k: int|
                    0 <= k < done.len() ==> #[trigger] spec_split_chars(s@, sep)[k] == done[k]);
            }
            break ;
        }
        r.push(piece);
        proof {
            done = done.push(u.take(e - pos));
            assert(u.skip(e - pos + 1) =~= s@.skip(e + 1));
            assert(spec_split_chars(s@, sep) == done + spec_split_chars(s@.skip(e + 1), sep));
        }
        pos = e + 1;
    }
    r
}

/// One compiled pattern segment: a literal to match exactly, or a named
/// variable standing for one path segment.
#[derive(Debug)]
pub enum Segment {
    Literal(String),
    Var(String),
}

/// The view of a segment: whether it is a variable, and its text.
pub open spec fn seg_view(seg: Segment) -> (bool, Seq<char>) {
    match seg {
        Segment::Literal(t) => (false, t@),
        Segment::Var(n) => (true, n@),
    }
}

/// A variable name: a lower-case letter, then lower-case letters or digits.
pub open spec fn is_var_name(n: Seq<char>) -> bool {
    n.len() >= 1 && 'a' <= n[0] && n[0] <= 'z' && forall|i: int|
        1 <= i < n.len() ==> ('a' <= n[i] && n[i] <= 'z') || ('0' <= n[i] && n[i] <= '9')
}

/// A pattern segment of the shape `<name>` with a well-formed name.
pub open spec fn is_var_seg(t: Seq<char>) -> bool {
    t.len() >= 3 && t[0] == '<' && t.last() == '>' && is_var_name(t.subrange(1, t.len() - 1))
}

/// What one pattern piece compiles to.
pub open spec fn seg_of(t: Seq<char>) -> (bool, Seq<char>) {
    if is_var_seg(t) {
        (true, t.subrange(1, t.len() - 1))
    } else {
        (false, t)
    }
}

/// What a whole pattern compiles to, segment by segment.
pub open spec fn spec_segs(pattern: Seq<char>) -> Seq<(bool, Seq<char>)> {
    spec_split_chars(pattern, '/').map_values(|t: Seq<char>| seg_of(t))
}

/// The variable names of a compiled pattern, in order.
pub open spec fn seg_vars(segs: Seq<(bool, Seq<char>)>) -> Seq<Seq<char>>
    decreases segs.len(),
{
    if segs.len() == 0 {
        Seq::empty()
    } else if segs[0].0 {
        seq![segs[0].1] + seg_vars(segs.drop_first())
    } else {
        seg_vars(segs.drop_first())
    }
}

/// Whether one path piece satisfies one pattern segment: a literal must be
/// equal, a variable takes any non-empty piece without a question mark.
pub open spec fn seg_matches(seg: (bool, Seq<char>), piece: Seq<char>) -> bool {
    if seg.0 {
        piece.len() > 0 && !piece.contains('?')
    } else {
        piece == seg.1
    }
}

/// Whether a compiled pattern matches a split path, piece for piece.
pub open spec fn segs_match(segs: Seq<(bool, Seq<char>)>, pieces: Seq<Seq<char>>) -> bool {
    segs.len() == pieces.len() && forall|i: int|
        0 <= i < segs.len() ==> seg_matches(segs[i], pieces[i])
}

/// The variables a match extracts: each variable name paired with the path
/// piece standing at its position, in pattern order.
pub open spec fn spec_vars(segs: Seq<(bool, Seq<char>)>, pieces: Seq<Seq<char>>) -> Seq<EntryView>
    decreases segs.len(),
{
    if segs.len() == 0 || pieces.len() == 0 {
        Seq::empty()
    } else if segs[0].0 {
        seq![(segs[0].1, pieces[0])] + spec_vars(segs.drop_first(), pieces.drop_first())
    } else {
        spec_vars(segs.drop_first(), pieces.drop_first())
    }
}

/// Whether a route answers the given method and split path.
pub open spec fn route_matches(
    m: Method,
    segs: Seq<(bool, Seq<char>)>,
    method: Method,
    path: Seq<char>,
) -> bool {
    m == method && segs_match(segs, spec_split_chars(path, '/'))
}


/// Two variable segments somewhere share a name.
pub open spec fn has_dup_vars(segs: Seq<(bool, Seq<char>)>) -> bool {
    exists|i: int, j: int|
        0 <= i < j < segs.len() && segs[i].0 && segs[j].0 && segs[i].1 == segs[j].1
}

proof fn lemma_seg_vars_pos(segs: Seq<(bool, Seq<char>)>, k: int)
    requires
        0 <= k < seg_vars(segs).len(),
    ensures
        exists|i: int| 0 <= i < segs.len() && segs[i].0 && segs[i].1 == seg_vars(segs)[k],
    decreases segs.len(),
{
    if segs.len() > 0 {
        if segs[0].0 && k == 0 {
            assert(segs[0].0 && segs[0].1 == seg_vars(segs)[0]);
        } else {
            let k2 = if segs[0].0 {
                k - 1
            } else {
                k
            };
            lemma_seg_vars_pos(segs.drop_first(), k2);
            let i2 = choose|i: int|
                0 <= i < segs.drop_first().len() && segs.drop_first()[i].0
                    && segs.drop_first()[i].1 == seg_vars(segs.drop_first())[k2];
            assert(segs[i2 + 1].0 && segs[i2 + 1].1 == seg_vars(segs)[k]);
        }
    }
}

/// The extracted mapping's entries are the pattern's variable names, in
/// order, each paired with the path piece standing at the variable's place.
pub proof fn lemma_vars_keys(segs: Seq<(bool, Seq<char>)>, pieces: Seq<Seq<char>>)
    requires
        segs.len() == pieces.len(),
    ensures
        spec_vars(segs, pieces).len() == seg_vars(segs).len(),
        forall|k: int|
            0 <= k < seg_vars(segs).len() ==> #[trigger] spec_vars(segs, pieces)[k].0 == seg_vars(
                segs,
            )[k],
    decreases segs.len(),
{
    if segs.len() > 0 {
        lemma_vars_keys(segs.drop_first(), pieces.drop_first());
        if segs[0].0 {
            assert(forall|k: int|
                1 <= k < spec_vars(segs, pieces).len() ==> #[trigger] spec_vars(segs, pieces)[k]
                    == spec_vars(segs.drop_first(), pieces.drop_first())[k - 1]);
            assert(forall|k: int|
                1 <= k < seg_vars(segs).len() ==> #[trigger] seg_vars(segs)[k] == seg_vars(
                    segs.drop_first(),
                )[k - 1]);
        }
    }
}

proof fn lemma_spec_vars_snoc(segs: Seq<(bool, Seq<char>)>, pieces: Seq<Seq<char>>, i: int)
    requires
        segs.len() == pieces.len(),
        0 <= i < segs.len(),
    ensures
        spec_vars(segs.take(i + 1), pieces.take(i + 1)) == spec_vars(segs.take(i), pieces.take(i))
            + (if segs[i].0 {
            seq![(segs[i].1, pieces[i])]
        } else {
            Seq::<EntryView>::empty()
        }),
    decreases i,
{
    reveal_with_fuel(spec_vars, 3);
    if i == 0 {
        assert(segs.take(1)[0] == segs[0]);
        assert(pieces.take(1)[0] == pieces[0]);
        assert(segs.take(1).drop_first() =~= Seq::<(bool, Seq<char>)>::empty());
        assert(pieces.take(1).drop_first() =~= Seq::<Seq<char>>::empty());
        if segs[0].0 {
            assert(spec_vars(segs.take(1), pieces.take(1)) =~= spec_vars(
                segs.take(0),
                pieces.take(0),
            ) + seq![(segs[0].1, pieces[0])]);
        } else {
            assert(spec_vars(segs.take(1), pieces.take(1)) =~= spec_vars(
                segs.take(0),
                pieces.take(0),
            ));
        }
    } else {
        lemma_spec_vars_snoc(segs.drop_first(), pieces.drop_first(), i - 1);
        assert(segs.take(i + 1).drop_first() =~= segs.drop_first().take(i));
        assert(pieces.take(i + 1).drop_first() =~= pieces.drop_first().take(i));
        assert(segs.take(i).drop_first() =~= segs.drop_first().take(i - 1));
        assert(pieces.take(i).drop_first() =~= pieces.drop_first().take(i - 1));
        assert(segs.drop_first()[i - 1] == segs[i]);
        assert(pieces.drop_first()[i - 1] == pieces[i]);
        if segs.take(i + 1)[0].0 {
            assert(spec_vars(segs.take(i + 1), pieces.take(i + 1)) =~= spec_vars(
                segs.take(i),
                pieces.take(i),
            ) + (if segs[i].0 {
                seq![(segs[i].1, pieces[i])]
            } else {
                Seq::<EntryView>::empty()
            }));
        } else {
            assert(spec_vars(segs.take(i + 1), pieces.take(i + 1)) =~= spec_vars(
                segs.take(i),
                pieces.take(i),
            ) + (if segs[i].0 {
                seq![(segs[i].1, pieces[i])]
            } else {
                Seq::<EntryView>::empty()
            }));
        }
    }
}

/// Why a pattern is rejected at registration.
#[derive(Debug, PartialEq, Eq, Structural, Clone, Copy)]
pub enum RouteError {
    /// Two variables in one pattern share a name.
    DuplicateVariable,
}

/// One registered route: the method it answers and its compiled pattern.
/// The handler it dispatches to stands at the same position in the
/// router's handler list.
pub struct Route {
    pub method: Method,
    pub segs: Vec<Segment>,
}

/// The compiled pattern of a route, as segment views.
pub open spec fn route_segs(r: Route) -> Seq<(bool, Seq<char>)> {
    r.segs@.map_values(|s: Segment| seg_view(s))
}

/// Checks whether a pattern piece is a `<name>` variable; returns the name.
fn var_name_of<'a>(piece: &'a str) -> (r: Option<&'a str>)
    ensures
        match r {
            Some(nm) => is_var_seg(piece@) && nm@ == piece@.subrange(1, piece@.len() - 1),
            None => !is_var_seg(piece@),
        },
{
    let n = piece.unicode_len();
    if n < 3 {
        return None;
    }
    if piece.get_char(0) != '<' {
        return None;
    }
    if piece.get_char(n - 1) != '>' {
        return None;
    }
    let c0 = piece.get_char(1);
    if !('a' <= c0 && c0 <= 'z') {
        proof {
            assert(piece@.subrange(1, n - 1)[0] == piece@[1]);
        }
        return None;
    }
    let mut i: usize = 2;
    while i < n - 1
        invariant
            2 <= i <= n - 1,
            3 <= n == piece@.len(),
            forall|j: int|
                1 <= j < i ==> ('a' <= piece@[j] && piece@[j] <= 'z') || ('0' <= piece@[j]
                    && piece@[j] <= '9'),
        decreases n - i,
    {
        let c = piece.get_char(i);
        if !(('a' <= c && c <= 'z') || ('0' <= c && c <= '9')) {
            proof {
                assert(piece@.subrange(1, n - 1)[i - 1] == piece@[i as int]);
            }
            return None;
        }
        i = i + 1;
    }
    let nm = piece.substring_char(1, n - 1);
    proof {
        let name = piece@.subrange(1, n - 1);
        assert(forall|j: int| 0 <= j < name.len() ==> name[j] == piece@[j + 1]);
        assert(is_var_name(name));
        assert(piece@.last() == piece@[n - 1]);
    }
    Some(nm)
}

/// A handler in the router's handler list.
pub struct HandlerBox {
    pub f: Box<dyn Handler>,
}

/// The ordered route table: the first registered route that matches wins.
/// Each route's handler stands at the route's own position in `handlers`.
pub struct Router {
    table: Vec<Route>,
    handlers: Vec<HandlerBox>,
}

impl Router {
    /// The registered routes, oldest first: each route's method and
    /// compiled pattern.
    pub closed spec fn spec_routes(&self) -> Seq<(Method, Seq<(bool, Seq<char>)>)> {
        Seq::new(self.table@.len(), |i: int| (self.table@[i].method, route_segs(self.table@[i])))
    }

    /// Every registered pattern has pairwise distinct variable names.
    pub closed spec fn wf(&self) -> bool {
        forall|i: int|
            0 <= i < self.spec_routes().len() ==> !has_dup_vars(#[trigger] self.spec_routes()[i].1)
    }

    pub fn new() -> (r: Router)
        ensures
            r.spec_routes() == Seq::<(Method, Seq<(bool, Seq<char>)>)>::empty(),
            r.wf(),
    {
        let r = Router { table: Vec::new(), handlers: Vec::new() };
        proof {
            assert(r.spec_routes() =~= Seq::<(Method, Seq<(bool, Seq<char>)>)>::empty());
        }
        r
    }

    /// Compiles `pattern` and registers it after all earlier routes, or
    /// rejects it when two of its variables share a name.
    pub fn add_handler(&mut self, m: Method, pattern: &str, f: Box<dyn Handler>) -> (r: Result<
        (),
        RouteError,
    >)
        ensures
            match r {
                Ok(()) => !has_dup_vars(spec_segs(pattern@)) && final(self).spec_routes() == old(
                    self,
                ).spec_routes().push((m, spec_segs(pattern@))),
                Err(e) => e == RouteError::DuplicateVariable && has_dup_vars(spec_segs(pattern@))
                    && final(self).spec_routes() == old(self).spec_routes(),
            },
            old(self).wf() ==> final(self).wf(),
    {
        let pieces = split_str(pattern, '/');
        let mut segs: Vec<Segment> = Vec::new();
        let n = pieces.len();
        let ghost target = spec_segs(pattern@);
        let mut i: usize = 0;
        while i < n
            invariant
                i <= n,
                n == pieces@.len(),
                n == target.len(),
                forall|j: int| 0 <= j < n ==> pieces@[j]@ == spec_split_chars(pattern@, '/')[j],
                target == spec_split_chars(pattern@, '/').map_values(|t: Seq<char>| seg_of(t)),
                segs@.len() == i,
                forall|j: int| 0 <= j < i ==> seg_view(#[trigger] segs@[j]) == target[j],
            decreases n - i,
        {
            let piece = pieces[i];
            match var_name_of(piece) {
                Some(nm) => {
                    segs.push(Segment::Var(nm.to_owned()));
                },
                None => {
                    segs.push(Segment::Literal(piece.to_owned()));
                },
            }
            i = i + 1;
        }

        // reject a pattern in which two variables share a name
        let mut a: usize = 0;
        while a < segs.len()
            invariant
                a <= segs.len(),
                target == spec_segs(pattern@),
                self.spec_routes() == old(self).spec_routes(),
                self.table@ == old(self).table@,
                segs@.len() == target.len(),
                forall|j: int| 0 <= j < segs@.len() ==> seg_view(#[trigger] segs@[j]) == target[j],
                forall|x: int, y: int|
                    0 <= x < y < segs@.len() && x < a ==> !(target[x].0 && target[y].0
                        && target[x].1 == target[y].1),
            decreases segs.len() - a,
        {
            let mut b: usize = a + 1;
            while b < segs.len()
                invariant
                    a < b <= segs.len() || b == a + 1,
                    a < segs.len(),
                    target == spec_segs(pattern@),
                    self.spec_routes() == old(self).spec_routes(),
                    self.table@ == old(self).table@,
                    segs@.len() == target.len(),
                    forall|j: int|
                        0 <= j < segs@.len() ==> seg_view(#[trigger] segs@[j]) == target[j],
                    forall|y: int|
                        a < y < b && y < segs@.len() ==> !(target[a as int].0 && target[y].0
                            && target[a as int].1 == target[y].1),
                decreases segs.len() - b,
            {
                let is_dup: bool = match (&segs[a], &segs[b]) {
                    (Segment::Var(na), Segment::Var(nb)) => str_eq(na.as_str(), nb.as_str()),
                    _ => false,
                };
                if is_dup {
                    proof {
                        assert(target[a as int].0 && target[b as int].0 && target[a as int].1
                            == target[b as int].1);
                        assert(has_dup_vars(target));
                    }
                    return Err(RouteError::DuplicateVariable);
                }
                b = b + 1;
            }
            a = a + 1;
        }
        proof {
            assert(!has_dup_vars(target));
        }

        let ghost before = self.spec_routes();
        let ghost table0 = self.table@;
        let route = Route { method: m, segs };
        let ghost groute = route;
        proof {
            assert(route_segs(groute) =~= target);
        }
        self.table.push(route);
        self.handlers.push(HandlerBox { f });
        proof {
            assert(self.table@ == table0.push(groute));
            assert(self.spec_routes() =~= before.push((m, target)));
        }
        Ok(())
    }
}


/// Tries one compiled pattern against the split path, extracting variables.
fn try_match(segs: &Vec<Segment>, pieces: &Vec<&str>) -> (r: Option<StrMap>)
    requires
        !has_dup_vars(segs@.map_values(|s: Segment| seg_view(s))),
    ensures
        ({
            let sv = segs@.map_values(|s: Segment| seg_view(s));
            let pv = Seq::new(pieces@.len(), |i: int| pieces@[i]@);
            match r {
                Some(vars) => segs_match(sv, pv) && vars@ == spec_vars(sv, pv) && distinct_keys(
                    vars@,
                ),
                None => !segs_match(sv, pv),
            }
        }),
{
    let ghost sv = segs@.map_values(|s: Segment| seg_view(s));
    let ghost pv = Seq::new(pieces@.len(), |i: int| pieces@[i]@);
    let n = segs.len();
    if pieces.len() != n {
        return None;
    }
    let mut vars = StrMap::new();
    let mut i: usize = 0;
    proof {
        assert(sv.take(0) =~= Seq::<(bool, Seq<char>)>::empty());
        assert(pv.take(0) =~= Seq::<Seq<char>>::empty());
        assert(seg_vars(sv.take(0)) =~= Seq::<Seq<char>>::empty());
        lemma_vars_keys(sv.take(0), pv.take(0));
    }
    while i < n
        invariant
            i <= n,
            n == segs@.len(),
            n == pieces@.len(),
            sv == segs@.map_values(|s: Segment| seg_view(s)),
            pv == Seq::new(pieces@.len(), |ii: int| pieces@[ii]@),
            !has_dup_vars(sv),
            forall|j: int| 0 <= j < i ==> seg_matches(sv[j], pv[j]),
            vars@ == spec_vars(sv.take(i as int), pv.take(i as int)),
            distinct_keys(vars@),
        decreases n - i,
    {
        let matched: bool;
        match &segs[i] {
            Segment::Literal(l) => {
                matched = str_eq(l.as_str(), pieces[i]);
                if matched {
                    proof {
                        lemma_spec_vars_snoc(sv, pv, i as int);
                        assert(!sv[i as int].0);
                        assert(spec_vars(sv.take(i + 1), pv.take(i + 1)) =~= vars@);
                    }
                }
            },
            Segment::Var(nm) => {
                let piece = pieces[i];
                let pn = piece.unicode_len();
                let qpos = find_char_from(piece, 0, '?');
                proof {
                    lemma_find_char(piece@.skip(0), '?');
                    assert(piece@.skip(0) =~= piece@);
                }
                if pn == 0 || qpos < pn {
                    matched = false;
                    proof {
                        if qpos < pn {
                            assert(piece@[qpos as int] == '?');
                            assert(pv[i as int].contains('?'));
                        }
                        assert(!seg_matches(sv[i as int], pv[i as int]));
                    }
                } else {
                    matched = true;
                    proof {
                        assert(forall|j: int| 0 <= j < pn ==> piece@[j] != '?');
                        assert(!pv[i as int].contains('?'));
                        assert(seg_matches(sv[i as int], pv[i as int]));

                        // the name about to be inserted is absent so far
                        lemma_vars_keys(sv.take(i as int), pv.take(i as int));
                        assert forall|k: int| 0 <= k < vars@.len() implies vars@[k].0 != nm@ by {
                            if vars@[k].0 == nm@ {
                                lemma_seg_vars_pos(sv.take(i as int), k);
                                let w = choose|w: int|
                                    0 <= w < sv.take(i as int).len() && sv.take(i as int)[w].0
                                        && sv.take(i as int)[w].1 == seg_vars(
                                        sv.take(i as int),
                                    )[k];
                                assert(sv[w].0 && sv[w].1 == nm@ && sv[i as int].0 && w < i);
                                assert(has_dup_vars(sv));
                            }
                        }
                        crate::strmap::lemma_lookup_absent(vars@, nm@);
                    }
                    let ghost vars0 = vars@;
                    vars.insert(nm.clone(), piece.to_owned());
                    proof {
                        crate::strmap::lemma_insert_absent(vars0, nm@, pv[i as int]);
                        lemma_spec_vars_snoc(sv, pv, i as int);
                        assert(vars@ =~= spec_vars(sv.take(i + 1), pv.take(i + 1)));
                    }
                }
            },
        }
        if !matched {
            proof {
                assert(!seg_matches(sv[i as int], pv[i as int]));
                assert(!segs_match(sv, pv));
            }
            return None;
        }
        i = i + 1;
    }
    proof {
        assert(sv.take(n as int) =~= sv);
        assert(pv.take(n as int) =~= pv);
        assert(segs_match(sv, pv));
    }
    Some(vars)
}

impl Router {
    /// Scans the routes in registration order and answers with the first
    /// whose method and pattern match, together with its extracted
    /// variables; `None` when no route matches.
    pub fn match_route(&self, method: Method, path: &str) -> (r: Option<(usize, StrMap)>)
        requires
            self.wf(),
        ensures
            match r {
                Some(p) => {
                    let routes = self.spec_routes();
                    &&& (p.0 as int) < routes.len()
                    &&& route_matches(routes[p.0 as int].0, routes[p.0 as int].1, method, path@)
                    &&& forall|j: int|
                        0 <= j < p.0 as int ==> !route_matches(
                            #[trigger] self.spec_routes()[j].0,
                            self.spec_routes()[j].1,
                            method,
                            path@,
                        )
                    &&& p.1@ == spec_vars(routes[p.0 as int].1, spec_split_chars(path@, '/'))
                    &&& distinct_keys(p.1@)
                },
                None => forall|j: int|
                    0 <= j < self.spec_routes().len() ==> !route_matches(
                        #[trigger] self.spec_routes()[j].0,
                        self.spec_routes()[j].1,
                        method,
                        path@,
                    ),
            },
    {
        let pieces = split_str(path, '/');
        let ghost pv = spec_split_chars(path@, '/');
        proof {
            assert(pv =~= Seq::new(pieces@.len(), |i: int| pieces@[i]@));
        }
        let n = self.table.len();
        let mut i: usize = 0;
        while i < n
            invariant
                i <= n,
                self.wf(),
                n == self.table@.len(),
                pv == spec_split_chars(path@, '/'),
                pv == Seq::new(pieces@.len(), |k: int| pieces@[k]@),
                forall|k: int| 0 <= k < pieces@.len() ==> pieces@[k]@ == pv[k],
                forall|j: int|
                    0 <= j < i ==> !route_matches(
                        #[trigger] self.spec_routes()[j].0,
                        self.spec_routes()[j].1,
                        method,
                        path@,
                    ),
            decreases n - i,
        {
            let route = &self.table[i];
            if route.method == method {
                proof {
                    assert(self.spec_routes()[i as int].1 == route_segs(self.table@[i as int]));
                    assert(!has_dup_vars(
                        self.table@[i as int].segs@.map_values(|s: Segment| seg_view(s)),
                    ));
                }
                match try_match(&route.segs, &pieces) {
                    Some(vars) => {
                        return Some((i, vars));
                    },
                    None => {
                        proof {
                            assert(!route_matches(
                                self.spec_routes()[i as int].0,
                                self.spec_routes()[i as int].1,
                                method,
                                path@,
                            ));
                        }
                    },
                }
            } else {
                proof {
                    assert(!route_matches(
                        self.spec_routes()[i as int].0,
                        self.spec_routes()[i as int].1,
                        method,
                        path@,
                    ));
                }
            }
            i = i + 1;
        }
        None
    }

    /// Routes one request through the middleware chain to its handler.
    /// A request no route matches is answered with an empty 404, and a
    /// chain of exactly the compression middleware always answers with a
    /// correctly compressed form of some inner response.
    pub fn dispatch(&self, middlewares: &[MiddlewareKind], req: Request) -> (resp: Response)
        requires
            self.wf(),
        ensures
            (forall|j: int|
                0 <= j < self.spec_routes().len() ==> !route_matches(
                    #[trigger] self.spec_routes()[j].0,
                    self.spec_routes()[j].1,
                    req.method,
                    req.url@,
                )) ==> resp.status.code_num == 404 && resp.headers@.len() == 0
                && resp.content is None,
            (middlewares@.len() == 1 && middlewares@[0] matches MiddlewareKind::Compression(_))
                ==> exists|inner: Response|
                #[trigger] compressed(spec_accepts_gzip(req.headers@), inner, resp),
    {
        let ghost g = spec_accepts_gzip(req.headers@);
        let m = req.method;
        let matched = self.match_route(m, req.url.as_str());
        match matched {
            Some((i, vars)) => {
                if i < self.handlers.len() {
                    let mut ctx = RequestContext::from(req, vars);
                    let next = Next { middlewares, handler: &*self.handlers[i].f };
                    next.run(&mut ctx)
                } else {
                    // every route is registered together with its handler,
                    // so a route without one cannot arise through this API;
                    // answer as for an unmatched path all the same
                    let nf = not_found();
                    proof {
                        assert(compressed(g, nf, nf));
                    }
                    nf
                }
            },
            None => {
                let nf = not_found();
                proof {
                    assert(compressed(g, nf, nf));
                }
                nf
            },
        }
    }
}



/// Law: when a pattern whose variables have pairwise distinct names is
/// matched against a split path, the extracted mapping binds exactly the
/// pattern's variable names — looking any one of them up yields the path
/// piece standing at that variable's position — and holds nothing else.
pub proof fn lemma_match_vars(segs: Seq<(bool, Seq<char>)>, pieces: Seq<Seq<char>>)
    requires
        segs.len() == pieces.len(),
        !has_dup_vars(segs),
    ensures
        spec_vars(segs, pieces).len() == seg_vars(segs).len(),
        forall|k: int|
            0 <= k < spec_vars(segs, pieces).len() ==> #[trigger] spec_vars(segs, pieces)[k].0
                == seg_vars(segs)[k],
        forall|i: int|
            0 <= i < segs.len() && (#[trigger] segs[i]).0 ==> lookup(
                spec_vars(segs, pieces),
                segs[i].1,
            ) == Some(pieces[i]),
    decreases segs.len(),
{
    lemma_vars_keys(segs, pieces);
    if segs.len() > 0 {
        let rs = segs.drop_first();
        let rp = pieces.drop_first();
        assert(!has_dup_vars(rs)) by {
            assert(forall|x: int| 0 <= x < rs.len() ==> rs[x] == segs[x + 1]);
            if has_dup_vars(rs) {
                let (x, y) = choose|x: int, y: int|
                    0 <= x < y < rs.len() && rs[x].0 && rs[y].0 && rs[x].1 == rs[y].1;
                assert(segs[x + 1].0 && segs[y + 1].0 && segs[x + 1].1 == segs[y + 1].1);
            }
        }
        lemma_match_vars(rs, rp);
        let tail = spec_vars(rs, rp);
        if segs[0].0 {
            let head = (segs[0].1, pieces[0]);
            assert(spec_vars(segs, pieces) == seq![head] + tail);
            assert((seq![head] + tail)[0] == head);
            assert((seq![head] + tail).drop_first() =~= tail);
            assert(lookup(spec_vars(segs, pieces), segs[0].1) == Some(pieces[0]));
            assert forall|i: int|
                1 <= i < segs.len() && (#[trigger] segs[i]).0 implies lookup(
                spec_vars(segs, pieces),
                segs[i].1,
            ) == Some(pieces[i]) by {
                assert(segs[i].1 != segs[0].1);
                assert(rs[i - 1] == segs[i] && rp[i - 1] == pieces[i]);
                assert(lookup(tail, segs[i].1) == Some(pieces[i]));
            }
        } else {
            assert(spec_vars(segs, pieces) == tail);
            assert forall|i: int|
                0 <= i < segs.len() && (#[trigger] segs[i]).0 implies lookup(
                spec_vars(segs, pieces),
                segs[i].1,
            ) == Some(pieces[i]) by {
                assert(i >= 1);
                assert(rs[i - 1] == segs[i] && rp[i - 1] == pieces[i]);
            }
        }
    }
}


} // verus!


