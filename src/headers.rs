use vstd::prelude::*;

verus! {

/// `a` sorts strictly before `b` in byte-wise lexicographic order.
pub open spec fn lex_lt(a: Seq<u8>, b: Seq<u8>) -> bool {
    exists|i: int|
        0 <= i <= a.len() && i <= b.len() && a.take(i) == b.take(i) && ((i == a.len() && i
            < b.len()) || (i < a.len() && i < b.len() && a[i] < b[i]))
}

/// A header name: ASCII without upper-case letters.
pub open spec fn name_ok(n: Seq<u8>) -> bool {
    forall|i: int| 0 <= i < n.len() ==> n[i] < 128 && !(65 <= #[trigger] n[i] <= 90)
}

/// The byte with an ASCII upper-case letter folded to lower case.
pub open spec fn lower_byte(b: u8) -> u8 {
    if 65 <= b <= 90 {
        (b + 32) as u8
    } else {
        b
    }
}

/// A name with its ASCII upper-case letters folded to lower case.
pub open spec fn lower_name(n: Seq<u8>) -> Seq<u8> {
    n.map_values(|b: u8| lower_byte(b))
}

/// Header entries whose names are valid and strictly ascending.
pub open spec fn headers_wf(hs: Seq<(Seq<u8>, Seq<u8>)>) -> bool {
    &&& forall|i: int| 0 <= i < hs.len() ==> name_ok(#[trigger] hs[i].0)
    &&& forall|i: int, j: int| 0 <= i < j < hs.len() ==> lex_lt(#[trigger] hs[i].0, #[trigger] hs[j].0)
}

/// The value stored under `n`, if any.
pub open spec fn header_lookup(hs: Seq<(Seq<u8>, Seq<u8>)>, n: Seq<u8>) -> Option<Seq<u8>> {
    if exists|i: int| 0 <= i < hs.len() && hs[i].0 == n {
        Some(hs[choose|i: int| 0 <= i < hs.len() && hs[i].0 == n].1)
    } else {
        None
    }
}

pub proof fn lemma_lex_irreflexive(a: Seq<u8>)
    ensures
        !lex_lt(a, a),
{
}

pub proof fn lemma_lex_transitive(a: Seq<u8>, b: Seq<u8>, c: Seq<u8>)
    requires
        lex_lt(a, b),
        lex_lt(b, c),
    ensures
        lex_lt(a, c),
{
    let i = choose|i: int|
        0 <= i <= a.len() && i <= b.len() && a.take(i) == b.take(i) && ((i == a.len() && i
            < b.len()) || (i < a.len() && i < b.len() && a[i] < b[i]));
    let j = choose|j: int|
        0 <= j <= b.len() && j <= c.len() && b.take(j) == c.take(j) && ((j == b.len() && j
            < c.len()) || (j < b.len() && j < c.len() && b[j] < c[j]));
    if i < j {
        assert(b.take(i) == c.take(i)) by {
            assert(b.take(i) =~= b.take(j).take(i));
            assert(c.take(i) =~= c.take(j).take(i));
        }
        assert(b[i] == b.take(j)[i]);
        assert(c[i] == c.take(j)[i]);
        assert(a.take(i) == c.take(i));
    } else if j < i {
        assert(a.take(j) == b.take(j)) by {
            assert(a.take(j) =~= a.take(i).take(j));
            assert(b.take(j) =~= b.take(i).take(j));
        }
        assert(a[j] == a.take(i)[j]);
        assert(b[j] == b.take(i)[j]);
        assert(a.take(j) == c.take(j));
    } else {
        assert(a.take(i) == c.take(i));
    }
}

/// Names in a well-formed header list are distinct.
pub proof fn lemma_wf_distinct(hs: Seq<(Seq<u8>, Seq<u8>)>, i: int, j: int)
    requires
        headers_wf(hs),
        0 <= i < hs.len(),
        0 <= j < hs.len(),
        i != j,
    ensures
        hs[i].0 != hs[j].0,
{
    if i < j {
        assert(lex_lt(hs[i].0, hs[j].0));
    } else {
        assert(lex_lt(hs[j].0, hs[i].0));
    }
}

pub proof fn lemma_lookup_at(hs: Seq<(Seq<u8>, Seq<u8>)>, i: int)
    requires
        headers_wf(hs),
        0 <= i < hs.len(),
    ensures
        header_lookup(hs, hs[i].0) == Some(hs[i].1),
{
    let n = hs[i].0;
    let k = choose|k: int| 0 <= k < hs.len() && hs[k].0 == n;
    if k != i {
        lemma_wf_distinct(hs, k, i);
    }
}

pub proof fn lemma_lookup_absent(hs: Seq<(Seq<u8>, Seq<u8>)>, n: Seq<u8>)
    requires
        forall|i: int| 0 <= i < hs.len() ==> hs[i].0 != n,
    ensures
        header_lookup(hs, n) is None,
{
}

proof fn lemma_wf_tail(hs: Seq<(Seq<u8>, Seq<u8>)>)
    requires
        headers_wf(hs),
        hs.len() > 0,
    ensures
        headers_wf(hs.drop_first()),
        forall|n: Seq<u8>| #[trigger] header_lookup(hs.drop_first(), n) == if n == hs[0].0 {
            None
        } else {
            header_lookup(hs, n)
        },
{
    let t = hs.drop_first();
    assert forall|i: int, j: int| 0 <= i < j < t.len() implies lex_lt(#[trigger] t[i].0, #[trigger] t[j].0) by {
        assert(t[i] == hs[i + 1] && t[j] == hs[j + 1]);
    }
    assert forall|i: int| 0 <= i < t.len() implies name_ok(#[trigger] t[i].0) by {
        assert(t[i] == hs[i + 1]);
    }
    assert forall|n: Seq<u8>| #[trigger] header_lookup(t, n) == if n == hs[0].0 { None } else { header_lookup(hs, n) } by {
        if exists|k: int| 0 <= k < t.len() && t[k].0 == n {
            let k = choose|k: int| 0 <= k < t.len() && t[k].0 == n;
            assert(t[k] == hs[k + 1]);
            lemma_lookup_at(t, k);
            lemma_lookup_at(hs, k + 1);
            lemma_wf_distinct(hs, 0, k + 1);
        } else {
            lemma_lookup_absent(t, n);
            if n != hs[0].0 {
                assert forall|k: int| 0 <= k < hs.len() implies hs[k].0 != n by {
                    if k > 0 {
                        assert(hs[k] == t[k - 1]);
                    }
                }
                lemma_lookup_absent(hs, n);
            }
        }
    }
}

/// Well-formed header lists that store the same value under every name are
/// the same list: the order of the entries depends on their names alone.
pub proof fn lemma_headers_canonical(a: Seq<(Seq<u8>, Seq<u8>)>, b: Seq<(Seq<u8>, Seq<u8>)>)
    requires
        headers_wf(a),
        headers_wf(b),
        forall|n: Seq<u8>| #[trigger] header_lookup(a, n) == header_lookup(b, n),
    ensures
        a == b,
    decreases a.len() + b.len(),
{
    if a.len() == 0 && b.len() == 0 {
        assert(a =~= b);
    } else if a.len() == 0 {
        lemma_lookup_at(b, 0);
        lemma_lookup_absent(a, b[0].0);
    } else if b.len() == 0 {
        lemma_lookup_at(a, 0);
        lemma_lookup_absent(b, a[0].0);
    } else {
        lemma_lookup_at(a, 0);
        lemma_lookup_at(b, 0);
        assert(header_lookup(b, a[0].0) is Some);
        let j = choose|j: int| 0 <= j < b.len() && b[j].0 == a[0].0;
        assert(header_lookup(a, b[0].0) is Some);
        let k = choose|k: int| 0 <= k < a.len() && a[k].0 == b[0].0;
        if j > 0 {
            assert(lex_lt(b[0].0, b[j].0));
            if k > 0 {
                assert(lex_lt(a[0].0, a[k].0));
                lemma_lex_transitive(a[0].0, b[0].0, a[0].0);
                lemma_lex_irreflexive(a[0].0);
            } else {
                lemma_lex_irreflexive(b[0].0);
            }
        }
        assert(b[0].0 == a[0].0);
        lemma_lookup_at(b, 0);
        assert(a[0] == b[0]);
        lemma_wf_tail(a);
        lemma_wf_tail(b);
        assert forall|n: Seq<u8>| #[trigger] header_lookup(a.drop_first(), n) == header_lookup(b.drop_first(), n) by {
            assert(header_lookup(a, n) == header_lookup(b, n));
        }
        lemma_headers_canonical(a.drop_first(), b.drop_first());
        assert(a =~= seq![a[0]] + a.drop_first());
        assert(b =~= seq![b[0]] + b.drop_first());
    }
}

/// One header: a name and its value.
#[derive(Clone, Debug)]
pub struct Header {
    pub name: Vec<u8>,
    pub value: Vec<u8>,
}

/// Header entries kept in ascending name order, one entry per name.
#[derive(Debug)]
pub struct Headers {
    entries: Vec<Header>,
}

pub open spec fn entries_view(v: Seq<Header>) -> Seq<(Seq<u8>, Seq<u8>)> {
    Seq::new(v.len(), |i: int| (v[i].name@, v[i].value@))
}

impl View for Headers {
    type V = Seq<(Seq<u8>, Seq<u8>)>;

    closed spec fn view(&self) -> Seq<(Seq<u8>, Seq<u8>)> {
        entries_view(self.entries@)
    }
}

/// Three-way comparison in byte-wise lexicographic order.
pub fn compare_names(a: &[u8], b: &[u8]) -> (r: i8)
    ensures
        r < 0 <==> lex_lt(a@, b@),
        r == 0 <==> a@ == b@,
        r > 0 <==> lex_lt(b@, a@),
        -1 <= r <= 1,
{
    let mut i: usize = 0;
    while i < a.len() && i < b.len() && a[i] == b[i]
        invariant
            i <= a@.len(),
            i <= b@.len(),
            a@.take(i as int) == b@.take(i as int),
        decreases a@.len() - i,
    {
        assert(a@.take(i + 1) =~= a@.take(i as int).push(a@[i as int]));
        assert(b@.take(i + 1) =~= b@.take(i as int).push(b@[i as int]));
        i = i + 1;
    }
    proof {
        lemma_lex_irreflexive(a@);
        lemma_lex_irreflexive(b@);
    }
    if i < a.len() && i < b.len() {
        if a[i] < b[i] {
            assert(lex_lt(a@, b@));
            proof { lemma_not_lt_after_diff(b@, a@, i as int); }
            assert(a@ != b@ ) by { assert(a@[i as int] != b@[i as int]); }
            -1
        } else {
            assert(lex_lt(b@, a@));
            proof { lemma_not_lt_after_diff(a@, b@, i as int); }
            assert(a@ != b@ ) by { assert(a@[i as int] != b@[i as int]); }
            1
        }
    } else if i == a.len() && i == b.len() {
        assert(a@ =~= a@.take(i as int));
        assert(b@ =~= b@.take(i as int));
        0
    } else if i == a.len() {
        assert(lex_lt(a@, b@));
        proof { lemma_not_lt_prefix(b@, a@); }
        -1
    } else {
        assert(lex_lt(b@, a@));
        proof { lemma_not_lt_prefix(a@, b@); }
        1
    }
}

proof fn lemma_not_lt_after_diff(a: Seq<u8>, b: Seq<u8>, i: int)
    requires
        0 <= i < a.len(),
        i < b.len(),
        a.take(i) == b.take(i),
        a[i] > b[i],
    ensures
        !lex_lt(a, b),
{
    if lex_lt(a, b) {
        let j = choose|j: int|
            0 <= j <= a.len() && j <= b.len() && a.take(j) == b.take(j) && ((j == a.len() && j
                < b.len()) || (j < a.len() && j < b.len() && a[j] < b[j]));
        if j < i {
            assert(a.subrange(0, i)[j] == b.subrange(0, i)[j]);
            assert(a.subrange(0, i)[j] == a[j]);
            assert(b.subrange(0, i)[j] == b[j]);
            assert(a[j] == b[j]);
        } else if j > i {
            assert(a.take(j)[i] == b.take(j)[i]);
            assert(a[i] == b[i]);
        }
        assert(false);
    }
}

proof fn lemma_not_lt_prefix(a: Seq<u8>, b: Seq<u8>)
    requires
        b.len() < a.len(),
        a.take(b.len() as int) == b.take(b.len() as int),
    ensures
        !lex_lt(a, b),
{
    if lex_lt(a, b) {
        let j = choose|j: int|
            0 <= j <= a.len() && j <= b.len() && a.take(j) == b.take(j) && ((j == a.len() && j
                < b.len()) || (j < a.len() && j < b.len() && a[j] < b[j]));
        if j < b.len() {
            assert(a.subrange(0, b.len() as int)[j] == b.subrange(0, b.len() as int)[j]);
            assert(a.subrange(0, b.len() as int)[j] == a[j]);
            assert(b.subrange(0, b.len() as int)[j] == b[j]);
            assert(a[j] == b[j]);
        }
        assert(false);
    }
}

impl Headers {
    #[verifier::type_invariant]
    spec fn inv(self) -> bool {
        headers_wf(entries_view(self.entries@))
    }

    /// No headers.
    pub fn new() -> (r: Headers)
        ensures
            r@ == Seq::<(Seq<u8>, Seq<u8>)>::empty(),
    {
        let r = Headers { entries: Vec::new() };
        assert(r@ =~= Seq::<(Seq<u8>, Seq<u8>)>::empty());
        r
    }

    /// Brings the headers' invariant into the caller's proof context: names
    /// valid and strictly ascending.
    pub(crate) fn note_wf(&self)
        ensures
            headers_wf(self@),
    {
        proof { use_type_invariant(self); }
    }

    /// Number of entries.
    pub fn len(&self) -> (r: usize)
        ensures
            r == self@.len(),
    {
        self.entries.len()
    }

    /// The entry at position `i`, in ascending name order.
    pub fn entry(&self, i: usize) -> (r: &Header)
        requires
            i < self@.len(),
        ensures
            (r.name@, r.value@) == self@[i as int],
    {
        &self.entries[i]
    }

    /// The value stored under `name`.
    pub fn get(&self, name: &[u8]) -> (r: Option<&Vec<u8>>)
        ensures
            r matches Some(v) ==> header_lookup(self@, name@) == Some(v@),
            r is None ==> header_lookup(self@, name@) is None,
    {
        proof { use_type_invariant(self); }
        assert(headers_wf(self@));
        let mut i: usize = 0;
        while i < self.entries.len()
            invariant
                i <= self@.len(),
                self@.len() == self.entries@.len(),
                headers_wf(self@),
                forall|j: int| 0 <= j < i ==> self@[j].0 != name@,
            decreases self@.len() - i,
        {
            if compare_names(self.entries[i].name.as_slice(), name) == 0 {
                proof { lemma_lookup_at(self@, i as int); }
                return Some(&self.entries[i].value);
            }
            i = i + 1;
        }
        None
    }

    /// Stores `value` under `name`, replacing what was there.
    pub fn insert(self, name: Vec<u8>, value: Vec<u8>) -> (r: Headers)
        requires
            name_ok(name@),
        ensures
            forall|n: Seq<u8>|
                #[trigger] header_lookup(r@, n) == if n == name@ {
                    Some(value@)
                } else {
                    header_lookup(self@, n)
                },
            r@.len() <= self@.len() + 1,
            self@.len() == 0 ==> r@ == seq![(name@, value@)],
    {
        proof { use_type_invariant(&self); }
        let ghost old_v = self@;
        let Headers { mut entries } = self;
        let mut i: usize = 0;
        let mut done = false;
        while !done && i < entries.len()
            invariant
                i <= old_v.len(),
                old_v == entries_view(entries@),
                old_v.len() == entries@.len(),
                headers_wf(old_v),
                forall|j: int| 0 <= j < i ==> lex_lt(#[trigger] old_v[j].0, name@),
                done ==> i < old_v.len() && !lex_lt(old_v[i as int].0, name@),
            decreases old_v.len() - i + (if done { 0int } else { 1int }),
        {
            if compare_names(entries[i].name.as_slice(), name.as_slice()) >= 0 {
                done = true;
            } else {
                i = i + 1;
            }
        }
        let c: i8 = if i < entries.len() {
            compare_names(entries[i].name.as_slice(), name.as_slice())
        } else {
            1
        };
        let ghost nv = name@;
        let ghost vv = value@;
        if i < entries.len() && c == 0 {
            entries.set(i, Header { name, value });
            let ghost new_v = entries_view(entries@);
            assert(new_v =~= old_v.update(i as int, (nv, vv)));
            assert(old_v[i as int].0 == nv);
            assert(forall|k: int| 0 <= k < new_v.len() ==> #[trigger] new_v[k].0 == old_v[k].0);
            assert(headers_wf(new_v));
            proof {
                assert forall|n: Seq<u8>|
                    #[trigger] header_lookup(new_v, n) == if n == nv {
                        Some(vv)
                    } else {
                        header_lookup(old_v, n)
                    } by {
                    if n == nv {
                        lemma_lookup_at(new_v, i as int);
                    } else if exists|k: int| 0 <= k < old_v.len() && old_v[k].0 == n {
                        let k = choose|k: int| 0 <= k < old_v.len() && old_v[k].0 == n;
                        lemma_lookup_at(old_v, k);
                        lemma_lookup_at(new_v, k);
                    } else {
                        lemma_lookup_absent(new_v, n);
                    }
                }
            }
            Headers { entries }
        } else {
            entries.insert(i, Header { name, value });
            let ghost new_v = entries_view(entries@);
            assert(new_v =~= old_v.insert(i as int, (nv, vv)));
            assert(old_v.len() == 0 ==> new_v =~= seq![(nv, vv)]);
            proof {
                assert forall|j: int, k: int| 0 <= j < k < new_v.len() implies lex_lt(
                    #[trigger] new_v[j].0,
                    #[trigger] new_v[k].0,
                ) by {
                    if k < i {
                    } else if k == i {
                    } else if j < i {
                        if k - 1 > i {
                            lemma_lex_transitive(new_v[j].0, nv, old_v[i as int].0);
                            lemma_lex_transitive(new_v[j].0, old_v[i as int].0, new_v[k].0);
                        } else {
                            lemma_lex_transitive(new_v[j].0, nv, new_v[k].0);
                        }
                    } else if j == i {
                        if k - 1 > i {
                            lemma_lex_transitive(nv, old_v[i as int].0, new_v[k].0);
                        }
                    } else {
                    }
                }
                assert forall|k: int| 0 <= k < new_v.len() implies name_ok(#[trigger] new_v[k].0) by {
                    if k < i {
                    } else if k == i {
                    } else {
                        assert(new_v[k].0 == old_v[k - 1].0);
                    }
                }
                assert(headers_wf(new_v));
            }
            proof {
                assert forall|n: Seq<u8>|
                    #[trigger] header_lookup(new_v, n) == if n == nv {
                        Some(vv)
                    } else {
                        header_lookup(old_v, n)
                    } by {
                    if n == nv {
                        lemma_lookup_at(new_v, i as int);
                    } else if exists|k: int| 0 <= k < old_v.len() && old_v[k].0 == n {
                        let k = choose|k: int| 0 <= k < old_v.len() && old_v[k].0 == n;
                        lemma_lookup_at(old_v, k);
                        if k < i {
                            lemma_lookup_at(new_v, k);
                        } else {
                            lemma_lookup_at(new_v, k + 1);
                        }
                    } else {
                        lemma_lookup_absent(new_v, n);
                    }
                }
            }
            Headers { entries }
        }
    }

    /// Headers made of `v`, when its names are valid and strictly ascending.
    pub fn from_entries(v: Vec<Header>) -> (r: Option<Headers>)
        ensures
            r matches Some(h) ==> h@ == entries_view(v@),
            r is None <==> !headers_wf(entries_view(v@)),
    {
        let ghost ev = entries_view(v@);
        let mut i: usize = 0;
        while i < v.len()
            invariant
                i <= v@.len(),
                ev == entries_view(v@),
                headers_wf(ev.take(i as int)),
            decreases v@.len() - i,
        {
            if !valid_name(v[i].name.as_slice()) {
                assert(!name_ok(ev[i as int].0));
                return None;
            }
            if i > 0 && compare_names(v[i - 1].name.as_slice(), v[i].name.as_slice()) >= 0 {
                assert(!lex_lt(ev[i - 1].0, ev[i as int].0));
                return None;
            }
            proof {
                let t = ev.take(i + 1);
                assert forall|a: int, b: int| 0 <= a < b < t.len() implies lex_lt(
                    #[trigger] t[a].0,
                    #[trigger] t[b].0,
                ) by {
                    if b == i && a < i - 1 {
                        assert(ev.take(i as int)[a] == t[a]);
                        assert(ev.take(i as int)[i - 1] == t[i - 1]);
                        lemma_lex_transitive(t[a].0, t[i - 1].0, t[b].0);
                    } else if b < i {
                        assert(ev.take(i as int)[a] == t[a]);
                        assert(ev.take(i as int)[b] == t[b]);
                    }
                }
                assert forall|a: int| 0 <= a < t.len() implies name_ok(#[trigger] t[a].0) by {
                    if a < i {
                        assert(ev.take(i as int)[a] == t[a]);
                    }
                }
            }
            i = i + 1;
        }
        assert(ev.take(i as int) =~= ev);
        Some(Headers { entries: v })
    }

    /// The headers without the entry for `name`.
    pub fn remove(self, name: &[u8]) -> (r: Headers)
        ensures
            forall|n: Seq<u8>|
                #[trigger] header_lookup(r@, n) == if n == name@ {
                    None
                } else {
                    header_lookup(self@, n)
                },
    {
        proof { use_type_invariant(&self); }
        let ghost old_v = self@;
        let Headers { mut entries } = self;
        let mut i: usize = 0;
        while i < entries.len()
            invariant
                i <= old_v.len(),
                old_v == entries_view(entries@),
                old_v == self@,
                headers_wf(old_v),
                forall|j: int| 0 <= j < i ==> old_v[j].0 != name@,
            decreases old_v.len() - i,
        {
            if compare_names(entries[i].name.as_slice(), name) == 0 {
                entries.remove(i);
                let ghost new_v = entries_view(entries@);
                assert(new_v =~= old_v.remove(i as int));
                proof {
                    assert forall|a: int, b: int| 0 <= a < b < new_v.len() implies lex_lt(
                        #[trigger] new_v[a].0,
                        #[trigger] new_v[b].0,
                    ) by {
                        if a >= i {
                            assert(lex_lt(old_v[a + 1].0, old_v[b + 1].0));
                        } else if b >= i {
                            assert(lex_lt(old_v[a].0, old_v[b + 1].0));
                        }
                    }
                    assert forall|a: int| 0 <= a < new_v.len() implies name_ok(#[trigger] new_v[a].0) by {
                        if a >= i {
                            assert(name_ok(old_v[a + 1].0));
                        }
                    }
                    assert forall|n: Seq<u8>|
                        #[trigger] header_lookup(new_v, n) == if n == name@ {
                            None
                        } else {
                            header_lookup(old_v, n)
                        } by {
                        if n == name@ {
                            assert forall|k: int| 0 <= k < new_v.len() implies new_v[k].0 != n by {
                                if k >= i {
                                    lemma_wf_distinct(old_v, k + 1, i as int);
                                }
                            }
                            lemma_lookup_absent(new_v, n);
                        } else if exists|k: int| 0 <= k < old_v.len() && old_v[k].0 == n {
                            let k = choose|k: int| 0 <= k < old_v.len() && old_v[k].0 == n;
                            lemma_lookup_at(old_v, k);
                            if k < i {
                                lemma_lookup_at(new_v, k);
                            } else {
                                assert(k != i);
                                lemma_lookup_at(new_v, k - 1);
                            }
                        } else {
                            lemma_lookup_absent(new_v, n);
                        }
                    }
                }
                let r = Headers { entries };
                assert(r@ == new_v);
                return r;
            }
            i = i + 1;
        }
        proof {
            assert forall|n: Seq<u8>|
                #[trigger] header_lookup(old_v, n) == if n == name@ {
                    None
                } else {
                    header_lookup(old_v, n)
                } by {
                if n == name@ {
                    lemma_lookup_absent(old_v, n);
                }
            }
        }
        Headers { entries }
    }
}

/// Whether `n` is a valid header name.
pub fn valid_name(n: &[u8]) -> (r: bool)
    ensures
        r == name_ok(n@),
{
    let mut i: usize = 0;
    while i < n.len()
        invariant
            i <= n@.len(),
            forall|j: int| 0 <= j < i ==> n@[j] < 128 && !(65 <= #[trigger] n@[j] <= 90),
        decreases n@.len() - i,
    {
        if n[i] >= 128 || (65 <= n[i] && n[i] <= 90) {
            return false;
        }
        i = i + 1;
    }
    true
}

/// `n` with its ASCII upper-case letters folded to lower case.
pub fn lowercase_name(n: &[u8]) -> (r: Vec<u8>)
    ensures
        r@ == lower_name(n@),
{
    let mut r: Vec<u8> = Vec::new();
    let mut i: usize = 0;
    while i < n.len()
        invariant
            i <= n@.len(),
            r@ == lower_name(n@.take(i as int)),
        decreases n@.len() - i,
    {
        let b = n[i];
        let l = if 65 <= b && b <= 90 {
            b + 32
        } else {
            b
        };
        r.push(l);
        assert(lower_name(n@.take(i + 1)) =~= lower_name(n@.take(i as int)).push(lower_byte(b)));
        i = i + 1;
    }
    assert(n@.take(i as int) =~= n@);
    r
}

/// Folding ASCII to lower case gives a valid name.
pub proof fn lemma_lower_name_ok(n: Seq<u8>)
    requires
        forall|i: int| 0 <= i < n.len() ==> #[trigger] n[i] < 128,
    ensures
        name_ok(lower_name(n)),
{
}

/// A copy of `b`.
pub fn slice_copy(b: &[u8]) -> (r: Vec<u8>)
    ensures
        r@ == b@,
{
    vstd::slice::slice_to_vec(b)
}

} // verus!
