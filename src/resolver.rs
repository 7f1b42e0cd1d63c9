use vstd::prelude::*;

verus! {

/// Values in strictly ascending order: sorted, without repeats.
pub open spec fn strictly_ascending(s: Seq<u32>) -> bool {
    forall|i: int, j: int| 0 <= i < j < s.len() ==> s[i] < s[j]
}

/// Two sequences that hold the same values.
pub open spec fn same_values(a: Seq<u32>, b: Seq<u32>) -> bool {
    forall|x: u32| a.contains(x) <==> b.contains(x)
}

/// A strictly ascending sequence is fixed by the values it holds.
pub proof fn lemma_ascending_unique(a: Seq<u32>, b: Seq<u32>)
    requires
        strictly_ascending(a),
        strictly_ascending(b),
        same_values(a, b),
    ensures
        a == b,
    decreases a.len(),
{
    if a.len() == 0 {
        if b.len() > 0 {
            assert(b.contains(b[0]));
        }
    } else if b.len() == 0 {
        assert(a.contains(a[0]));
    } else {
        assert(a.contains(a[0]));
        assert(b.contains(b[0]));
        let ia = choose|i: int| 0 <= i < a.len() && a[i] == b[0];
        let ib = choose|i: int| 0 <= i < b.len() && b[i] == a[0];
        assert(a[0] == b[0]) by {
            if ia > 0 {
                assert(a[0] < a[ia]);
                assert(b[0] <= b[ib]);
            }
        }
        let ta = a.drop_first();
        let tb = b.drop_first();
        assert forall|x: u32| ta.contains(x) <==> tb.contains(x) by {
            if ta.contains(x) {
                let i = choose|i: int| 0 <= i < ta.len() && ta[i] == x;
                assert(a[i + 1] == x && a[0] < x);
                assert(a.contains(x));
                let j = choose|j: int| 0 <= j < b.len() && b[j] == x;
                assert(j != 0);
                assert(tb[j - 1] == x);
            }
            if tb.contains(x) {
                let i = choose|i: int| 0 <= i < tb.len() && tb[i] == x;
                assert(b[i + 1] == x && b[0] < x);
                assert(b.contains(x));
                let j = choose|j: int| 0 <= j < a.len() && a[j] == x;
                assert(j != 0);
                assert(ta[j - 1] == x);
            }
        }
        lemma_ascending_unique(ta, tb);
        assert(a == seq![a[0]] + ta);
        assert(b == seq![b[0]] + tb);
    }
}

/// The distinct values of `mods` in ascending order.
pub fn ascending_modifiers(mods: &[u32]) -> (r: Vec<u32>)
    ensures
        strictly_ascending(r@),
        same_values(r@, mods@),
{
    let mut r: Vec<u32> = Vec::new();
    let mut i: usize = 0;
    while i < mods.len()
        invariant
            i <= mods@.len(),
            strictly_ascending(r@),
            same_values(r@, mods@.take(i as int)),
        decreases mods.len() - i,
    {
        let m = mods[i];
        let mut pos: usize = 0;
        while pos < r.len() && r[pos] < m
            invariant
                pos <= r@.len(),
                forall|k: int| 0 <= k < pos ==> r@[k] < m,
            decreases r.len() - pos,
        {
            pos += 1;
        }
        let ghost before = r@;
        let ghost t0 = mods@.take(i as int);
        let ghost t1 = mods@.take(i + 1);
        assert(t1 == t0.push(m));
        if pos < r.len() && r[pos] == m {
            assert forall|x: u32| r@.contains(x) <==> t1.contains(x) by {
                if x == m {
                    assert(r@[pos as int] == m);
                }
                if t1.contains(x) && x != m {
                    let k = choose|k: int| 0 <= k < i + 1 && t1[k] == x;
                    assert(t0[k] == x);
                }
            }
        } else {
            r.insert(pos, m);
            proof {
                before.insert_ensures(pos as int, m);
                assert forall|a: int, b: int| 0 <= a < b < r@.len() implies r@[a] < r@[b] by {
                    if b < pos {
                    } else if b == pos {
                    } else if a < pos {
                        assert(r@[b] == before[b - 1]);
                        assert(before[b - 1] >= m) by {
                            if before[b - 1] < m {
                                assert(before[pos as int] <= before[b - 1]);
                            }
                        }
                    } else if a == pos {
                        assert(r@[b] == before[b - 1]);
                        assert(before[pos as int] <= before[b - 1]);
                    } else {
                        assert(r@[a] == before[a - 1]);
                        assert(r@[b] == before[b - 1]);
                    }
                }
                assert forall|x: u32| r@.contains(x) <==> t1.contains(x) by {
                    if x == m {
                        assert(r@[pos as int] == m);
                        assert(t1[i as int] == m);
                    }
                    if r@.contains(x) && x != m {
                        let k = choose|k: int| 0 <= k < r@.len() && r@[k] == x;
                        if k < pos {
                            assert(before[k] == x);
                        } else {
                            assert(before[k - 1] == x);
                        }
                        assert(before.contains(x));
                        let k2 = choose|k2: int| 0 <= k2 < i && t0[k2] == x;
                        assert(t1[k2] == x);
                    }
                    if t1.contains(x) && x != m {
                        let k = choose|k: int| 0 <= k < i + 1 && t1[k] == x;
                        assert(t0[k] == x);
                        assert(before.contains(x));
                        let k2 = choose|k2: int| 0 <= k2 < before.len() && before[k2] == x;
                        if k2 < pos {
                            assert(r@[k2] == x);
                        } else {
                            assert(r@[k2 + 1] == x);
                        }
                    }
                }
            }
        }
        i += 1;
    }
    assert(mods@.take(mods@.len() as int) == mods@);
    r
}


/// The subsets of `mods` with `k` members, each listed in the order of `mods`,
/// and ordered among themselves by the positions of their members.
pub open spec fn subsets(mods: Seq<u32>, k: nat) -> Seq<Seq<u32>>
    decreases mods.len(),
{
    if k == 0 {
        seq![Seq::empty()]
    } else if mods.len() == 0 {
        Seq::empty()
    } else {
        subsets(mods.drop_first(), (k - 1) as nat).map_values(|s: Seq<u32>| seq![mods[0]] + s)
            + subsets(mods.drop_first(), k)
    }
}

pub open spec fn vecs_view(v: Seq<Vec<u32>>) -> Seq<Seq<u32>> {
    v.map_values(|x: Vec<u32>| x@)
}

fn prepend_code(m: u32, v: &Vec<u32>) -> (r: Vec<u32>)
    ensures
        r@ == seq![m] + v@,
{
    let mut r: Vec<u32> = Vec::new();
    r.push(m);
    let mut j: usize = 0;
    while j < v.len()
        invariant
            j <= v@.len(),
            r@ == seq![m] + v@.take(j as int),
        decreases v.len() - j,
    {
        r.push(v[j]);
        assert(v@.take(j + 1) == v@.take(j as int).push(v@[j as int]));
        j += 1;
    }
    assert(v@.take(v@.len() as int) == v@);
    r
}

fn copy_codes(v: &Vec<u32>) -> (r: Vec<u32>)
    ensures
        r@ == v@,
{
    let mut r: Vec<u32> = Vec::new();
    let mut j: usize = 0;
    while j < v.len()
        invariant
            j <= v@.len(),
            r@ == v@.take(j as int),
        decreases v.len() - j,
    {
        r.push(v[j]);
        assert(v@.take(j + 1) == v@.take(j as int).push(v@[j as int]));
        j += 1;
    }
    assert(v@.take(v@.len() as int) == v@);
    r
}

fn subsets_from(mods: &Vec<u32>, start: usize, k: usize) -> (r: Vec<Vec<u32>>)
    requires
        start <= mods@.len(),
    ensures
        vecs_view(r@) == subsets(mods@.skip(start as int), k as nat),
    decreases mods@.len() - start,
{
    if k == 0 {
        let r: Vec<Vec<u32>> = vec![Vec::new()];
        assert(vecs_view(r@) =~= seq![Seq::<u32>::empty()]);
        return r;
    }
    if start == mods.len() {
        let r: Vec<Vec<u32>> = Vec::new();
        assert(vecs_view(r@) =~= Seq::<Seq<u32>>::empty());
        return r;
    }
    let ghost rest = mods@.skip(start as int);
    assert(rest.drop_first() =~= mods@.skip(start + 1));
    let with = subsets_from(mods, start + 1, k - 1);
    let without = subsets_from(mods, start + 1, k);
    let m = mods[start];
    let ghost first = vecs_view(with@).map_values(|s: Seq<u32>| seq![m] + s);
    let mut r: Vec<Vec<u32>> = Vec::new();
    let mut i: usize = 0;
    while i < with.len()
        invariant
            i <= with@.len(),
            vecs_view(r@) == first.take(i as int),
            first == vecs_view(with@).map_values(|s: Seq<u32>| seq![m] + s),
        decreases with.len() - i,
    {
        let t = prepend_code(m, &with[i]);
        let ghost old_r = r@;
        r.push(t);
        assert(vecs_view(r@) =~= vecs_view(old_r).push(t@));
        assert(first[i as int] == seq![m] + with@[i as int]@);
        assert(first.take(i + 1) =~= first.take(i as int).push(first[i as int]));
        i += 1;
    }
    assert(first.take(first.len() as int) == first);
    let mut j: usize = 0;
    while j < without.len()
        invariant
            j <= without@.len(),
            vecs_view(r@) == first + vecs_view(without@).take(j as int),
        decreases without.len() - j,
    {
        let t = copy_codes(&without[j]);
        let ghost old_r = r@;
        r.push(t);
        assert(vecs_view(r@) =~= vecs_view(old_r).push(t@));
        assert(vecs_view(without@).take(j + 1) =~= vecs_view(without@).take(j as int).push(
            without@[j as int]@,
        ));
        assert(vecs_view(r@) =~= first + vecs_view(without@).take(j + 1));
        j += 1;
    }
    assert(vecs_view(without@).take(without@.len() as int) =~= vecs_view(without@));
    r
}

/// Every subset of `subsets(mods, k)` has `k` members.
pub proof fn lemma_subset_sizes(mods: Seq<u32>, k: nat)
    ensures
        forall|i: int| 0 <= i < subsets(mods, k).len() ==> #[trigger] subsets(mods, k)[i].len() == k,
    decreases mods.len(),
{
    if k != 0 && mods.len() != 0 {
        lemma_subset_sizes(mods.drop_first(), (k - 1) as nat);
        lemma_subset_sizes(mods.drop_first(), k);
        let a = subsets(mods.drop_first(), (k - 1) as nat).map_values(
            |s: Seq<u32>| seq![mods[0]] + s,
        );
        let b = subsets(mods.drop_first(), k);
        assert forall|i: int| 0 <= i < subsets(mods, k).len() implies #[trigger] subsets(
            mods,
            k,
        )[i].len() == k by {
            if i < a.len() {
                assert(subsets(mods, k)[i] == a[i]);
            } else {
                assert(subsets(mods, k)[i] == b[i - a.len()]);
            }
        }
    }
}

/// There are no subsets with more members than `mods` has.
pub proof fn lemma_no_larger_subsets(mods: Seq<u32>, k: nat)
    requires
        k > mods.len(),
    ensures
        subsets(mods, k).len() == 0,
    decreases mods.len(),
{
    if mods.len() != 0 {
        lemma_no_larger_subsets(mods.drop_first(), (k - 1) as nat);
        lemma_no_larger_subsets(mods.drop_first(), k);
    }
}


/// One entry of a keyboard layout: the symbol that a physical key yields
/// while the listed modifier key codes are held (in any order; a repeated
/// code counts once).
pub struct KeyBinding {
    pub code: u32,
    pub modifiers: Vec<u32>,
    pub symbol: char,
}

impl View for KeyBinding {
    type V = (u32, Seq<u32>, char);

    open spec fn view(&self) -> (u32, Seq<u32>, char) {
        (self.code, self.modifiers@, self.symbol)
    }
}

/// A loaded keyboard layout: the range of physical key codes it defines, and
/// the symbols its keys yield. A key and modifier state that no binding
/// lists yields no symbol; where two bindings list the same state, the
/// first one counts.
pub struct LayoutSnapshot {
    pub min_keycode: u32,
    pub max_keycode: u32,
    pub bindings: Vec<KeyBinding>,
}

impl LayoutSnapshot {
    pub open spec fn bindings_view(&self) -> Seq<(u32, Seq<u32>, char)> {
        self.bindings@.map_values(|b: KeyBinding| b@)
    }
}

/// The symbol of the first binding, from index `i` on, for `code` with
/// exactly the modifiers `mods` (in ascending order) held.
pub open spec fn symbol_from(b: Seq<(u32, Seq<u32>, char)>, i: int, code: u32, mods: Seq<u32>) -> Option<char>
    decreases b.len() - i,
{
    if i < 0 || i >= b.len() {
        None
    } else if b[i].0 == code && ascending_of(b[i].1) == mods {
        Some(b[i].2)
    } else {
        symbol_from(b, i + 1, code, mods)
    }
}

/// The symbol that the layout yields for `code` with the modifiers `mods` held.
pub open spec fn symbol_of(b: Seq<(u32, Seq<u32>, char)>, code: u32, mods: Seq<u32>) -> Option<char> {
    symbol_from(b, 0, code, mods)
}

fn same_codes(a: &Vec<u32>, b: &Vec<u32>) -> (r: bool)
    ensures
        r == (a@ == b@),
{
    if a.len() != b.len() {
        return false;
    }
    let mut i: usize = 0;
    while i < a.len()
        invariant
            a@.len() == b@.len(),
            i <= a@.len(),
            forall|k: int| 0 <= k < i ==> a@[k] == b@[k],
        decreases a.len() - i,
    {
        if a[i] != b[i] {
            return false;
        }
        i += 1;
    }
    assert(a@ =~= b@);
    true
}

/// The symbol that `layout` yields for `code` with exactly the modifiers
/// `mods` (in ascending order) held.
pub fn layout_symbol(layout: &LayoutSnapshot, code: u32, mods: &Vec<u32>) -> (r: Option<char>)
    ensures
        r == symbol_of(layout.bindings_view(), code, mods@),
{
    let ghost b = layout.bindings_view();
    let mut i: usize = 0;
    while i < layout.bindings.len()
        invariant
            b == layout.bindings_view(),
            i <= b.len(),
            symbol_from(b, 0, code, mods@) == symbol_from(b, i as int, code, mods@),
        decreases layout.bindings.len() - i,
    {
        let e = &layout.bindings[i];
        if e.code == code {
            let held = ascending_modifiers(e.modifiers.as_slice());
            proof {
                let c = ascending_of(e.modifiers@);
                assert(strictly_ascending(held@) && same_values(held@, e.modifiers@));
                assert(strictly_ascending(c) && same_values(c, e.modifiers@));
                assert(same_values(c, held@));
                lemma_ascending_unique(c, held@);
                assert(b[i as int] == e@);
            }
            if same_codes(&held, mods) {
                return Some(e.symbol);
            }
        }
        i += 1;
    }
    None
}

/// A key and modifier combination to try.
pub struct Probe {
    pub code: u32,
    pub modifiers: Vec<u32>,
}

impl View for Probe {
    type V = (u32, Seq<u32>);

    open spec fn view(&self) -> (u32, Seq<u32>) {
        (self.code, self.modifiers@)
    }
}

pub open spec fn probes_view(v: Seq<Probe>) -> Seq<(u32, Seq<u32>)> {
    v.map_values(|p: Probe| p@)
}

/// Each key code from `lo` up to (not including) `hi`, in ascending order,
/// crossed with each of `subs` in order.
pub open spec fn probes_for_codes(lo: int, hi: int, subs: Seq<Seq<u32>>) -> Seq<(u32, Seq<u32>)>
    decreases hi - lo,
{
    if hi <= lo {
        Seq::empty()
    } else {
        probes_for_codes(lo, hi - 1, subs) + subs.map_values(|s: Seq<u32>| ((hi - 1) as u32, s))
    }
}

/// The order in which the resolver tries combinations: by ascending number
/// of modifiers (below `n`), then by ascending key code, then by the
/// ascending modifier codes of the subset.
pub open spec fn probe_order(lo: int, hi: int, mods: Seq<u32>, n: nat) -> Seq<(u32, Seq<u32>)>
    decreases n,
{
    if n == 0 {
        Seq::empty()
    } else {
        probe_order(lo, hi, mods, (n - 1) as nat) + probes_for_codes(
            lo,
            hi,
            subsets(mods, (n - 1) as nat),
        )
    }
}


fn push_probes_for_code(out: &mut Vec<Probe>, code: u32, subs: &Vec<Vec<u32>>)
    ensures
        probes_view(final(out)@) == probes_view(old(out)@) + vecs_view(subs@).map_values(
            |s: Seq<u32>| (code, s),
        ),
{
    let ghost start = probes_view(out@);
    let ghost all = vecs_view(subs@).map_values(|s: Seq<u32>| (code, s));
    let mut i: usize = 0;
    while i < subs.len()
        invariant
            i <= subs@.len(),
            all == vecs_view(subs@).map_values(|s: Seq<u32>| (code, s)),
            probes_view(out@) == start + all.take(i as int),
        decreases subs.len() - i,
    {
        let ghost before = out@;
        let m = copy_codes(&subs[i]);
        out.push(Probe { code, modifiers: m });
        assert(probes_view(out@) =~= probes_view(before).push((code, subs@[i as int]@)));
        assert(all.take(i + 1) =~= all.take(i as int).push(all[i as int]));
        i += 1;
    }
    assert(all.take(all.len() as int) == all);
}

proof fn lemma_no_probes_without_subsets(lo: int, hi: int)
    ensures
        probes_for_codes(lo, hi, Seq::empty()) == Seq::<(u32, Seq<u32>)>::empty(),
    decreases hi - lo,
{
    if hi > lo {
        lemma_no_probes_without_subsets(lo, hi - 1);
        assert(Seq::<Seq<u32>>::empty().map_values(|s: Seq<u32>| ((hi - 1) as u32, s))
            =~= Seq::<(u32, Seq<u32>)>::empty());
    }
}

proof fn lemma_probe_order_saturates(lo: int, hi: int, mods: Seq<u32>, n: nat, m: nat)
    requires
        mods.len() < n <= m,
    ensures
        probe_order(lo, hi, mods, m) == probe_order(lo, hi, mods, n),
    decreases m - n,
{
    if m > n {
        lemma_probe_order_saturates(lo, hi, mods, n, (m - 1) as nat);
        lemma_no_larger_subsets(mods, (m - 1) as nat);
        assert(subsets(mods, (m - 1) as nat) =~= Seq::empty());
        lemma_no_probes_without_subsets(lo, hi);
        assert(probe_order(lo, hi, mods, m) =~= probe_order(lo, hi, mods, (m - 1) as nat));
    }
}

/// Every probe that the layout's key range and the modifier subsets give.
fn all_probes(min_keycode: u32, max_keycode: u32, mods: &Vec<u32>, max_len: usize) -> (r: Vec<Probe>)
    ensures
        probes_view(r@) == probe_order(
            min_keycode as int,
            max_keycode + 1,
            mods@,
            (max_len + 1) as nat,
        ),
{
    let ghost lo = min_keycode as int;
    let ghost hi = max_keycode + 1;
    let top: usize = if max_len < mods.len() {
        max_len
    } else {
        mods.len()
    };
    let mut out: Vec<Probe> = Vec::new();
    let mut k: u128 = 0;
    while k <= top as u128
        invariant
            top <= mods@.len(),
            k <= top + 1,
            lo == min_keycode as int,
            hi == max_keycode + 1,
            probes_view(out@) == probe_order(lo, hi, mods@, k as nat),
        decreases top + 1 - k,
    {
        let subs = subsets_from(mods, 0, k as usize);
        assert(mods@.skip(0) == mods@);
        let ghost base = probes_view(out@);
        let mut code: u64 = min_keycode as u64;
        while code <= max_keycode as u64
            invariant
                lo <= code,
                code <= hi || (code == lo && hi <= lo),
                hi == max_keycode + 1,
                lo == min_keycode as int,
                vecs_view(subs@) == subsets(mods@, k as nat),
                probes_view(out@) == base + probes_for_codes(lo, code as int, subsets(mods@, k as nat)),
            decreases hi - code,
        {
            push_probes_for_code(&mut out, code as u32, &subs);
            assert(probes_for_codes(lo, code + 1, subsets(mods@, k as nat)) == probes_for_codes(
                lo,
                code as int,
                subsets(mods@, k as nat),
            ) + subsets(mods@, k as nat).map_values(|s: Seq<u32>| (code as u32, s)));
            code += 1;
        }
        assert(probes_for_codes(lo, code as int, subsets(mods@, k as nat)) == probes_for_codes(
            lo,
            hi,
            subsets(mods@, k as nat),
        ));
        assert(probe_order(lo, hi, mods@, (k + 1) as nat) == probe_order(lo, hi, mods@, k as nat)
            + probes_for_codes(lo, hi, subsets(mods@, k as nat)));
        k += 1;
    }
    proof {
        if top + 1 < max_len + 1 {
            lemma_probe_order_saturates(lo, hi, mods@, (top + 1) as nat, (max_len + 1) as nat);
        }
    }
    out
}


/// How the layout reproduces one symbol: the physical key to tap while the
/// listed modifier key codes are held.
#[derive(Debug, PartialEq, Eq)]
pub struct Resolution {
    pub symbol: char,
    pub code: u32,
    pub modifiers: Vec<u32>,
}

impl View for Resolution {
    type V = (char, u32, Seq<u32>);

    open spec fn view(&self) -> (char, u32, Seq<u32>) {
        (self.symbol, self.code, self.modifiers@)
    }
}

pub open spec fn has_symbol(t: Seq<(char, u32, Seq<u32>)>, c: char) -> bool {
    exists|i: int| 0 <= i < t.len() && #[trigger] t[i].0 == c
}

/// The table that the probes give, tried in order: a symbol is recorded with
/// the first probe that yields it, and never replaced.
pub open spec fn table_of(p: Seq<(u32, Seq<u32>)>, b: Seq<(u32, Seq<u32>, char)>) -> Seq<
    (char, u32, Seq<u32>),
>
    decreases p.len(),
{
    if p.len() == 0 {
        Seq::empty()
    } else {
        let t = table_of(p.drop_last(), b);
        let q = p.last();
        match symbol_of(b, q.0, q.1) {
            Some(c) => if has_symbol(t, c) {
                t
            } else {
                t.push((c, q.0, q.1))
            },
            None => t,
        }
    }
}

/// The modifier codes of `mods`, without repeats, in ascending order.
pub open spec fn ascending_of(mods: Seq<u32>) -> Seq<u32> {
    choose|s: Seq<u32>| strictly_ascending(s) && same_values(s, mods)
}

/// The resolution table of a layout, for the modifier codes `mods` and at
/// most `max_len` modifiers held at once.
pub open spec fn resolution_table(layout: &LayoutSnapshot, mods: Seq<u32>, max_len: nat) -> Seq<
    (char, u32, Seq<u32>),
> {
    table_of(
        probe_order(
            layout.min_keycode as int,
            layout.max_keycode + 1,
            ascending_of(mods),
            max_len + 1,
        ),
        layout.bindings_view(),
    )
}

/// The first entry of `t`, from index `i` on, that records `c`.
pub open spec fn entry_from(t: Seq<(char, u32, Seq<u32>)>, i: int, c: char) -> Option<(u32, Seq<u32>)>
    decreases t.len() - i,
{
    if i < 0 || i >= t.len() {
        None
    } else if t[i].0 == c {
        Some((t[i].1, t[i].2))
    } else {
        entry_from(t, i + 1, c)
    }
}

/// The key and modifiers that `t` records for `c`.
pub open spec fn entry_for(t: Seq<(char, u32, Seq<u32>)>, c: char) -> Option<(u32, Seq<u32>)> {
    entry_from(t, 0, c)
}

/// Maps each symbol that a layout can produce to the key and modifiers that
/// produce it. Built once, then only read.
pub struct KeysymTable {
    entries: Vec<Resolution>,
}

impl View for KeysymTable {
    type V = Seq<(char, u32, Seq<u32>)>;

    closed spec fn view(&self) -> Seq<(char, u32, Seq<u32>)> {
        self.entries@.map_values(|e: Resolution| e@)
    }
}

fn find_symbol(entries: &Vec<Resolution>, c: char) -> (r: Option<usize>)
    ensures
        match r {
            Some(i) => i < entries@.len() && entries@[i as int].symbol == c && has_symbol(
                entries@.map_values(|e: Resolution| e@),
                c,
            ) && entry_for(
                entries@.map_values(|e: Resolution| e@),
                c,
            ) == Some((entries@[i as int].code, entries@[i as int].modifiers@)),
            None => !has_symbol(entries@.map_values(|e: Resolution| e@), c) && entry_for(
                entries@.map_values(|e: Resolution| e@),
                c,
            ) is None,
        },
{
    let ghost t = entries@.map_values(|e: Resolution| e@);
    let mut i: usize = 0;
    while i < entries.len()
        invariant
            t == entries@.map_values(|e: Resolution| e@),
            i <= entries@.len(),
            forall|k: int| 0 <= k < i ==> t[k].0 != c,
            entry_from(t, 0, c) == entry_from(t, i as int, c),
        decreases entries.len() - i,
    {
        if entries[i].symbol == c {
            assert(t[i as int].0 == c);
            return Some(i);
        }
        i += 1;
    }
    None
}

impl KeysymTable {
    /// The key and modifiers recorded for `c`, if any.
    pub fn lookup(&self, c: char) -> (r: Option<&Resolution>)
        ensures
            match r {
                Some(e) => e.symbol == c && entry_for(self@, c) == Some((e.code, e.modifiers@)),
                None => entry_for(self@, c) is None,
            },
    {
        match find_symbol(&self.entries, c) {
            Some(i) => Some(&self.entries[i]),
            None => None,
        }
    }

    /// A table that produces nothing.
    pub fn empty() -> (r: KeysymTable)
        ensures
            r@ == Seq::<(char, u32, Seq<u32>)>::empty(),
    {
        let r = KeysymTable { entries: Vec::new() };
        assert(r@ =~= Seq::<(char, u32, Seq<u32>)>::empty());
        r
    }

    /// The entries, in the order they were recorded.
    pub fn entries(&self) -> (r: &Vec<Resolution>)
        ensures
            r@.map_values(|e: Resolution| e@) == self@,
    {
        &self.entries
    }

    /// Number of symbols the table can produce.
    pub fn len(&self) -> (r: usize)
        ensures
            r == self@.len(),
    {
        self.entries.len()
    }
}

fn push_entry(entries: &mut Vec<Resolution>, entry: Resolution)
    ensures
        final(entries)@.map_values(|e: Resolution| e@) == old(entries)@.map_values(
            |e: Resolution| e@,
        ).push(entry@),
{
    let ghost before = entries@;
    let ghost v = entry@;
    entries.push(entry);
    assert(entries@.map_values(|e: Resolution| e@) =~= before.map_values(|e: Resolution| e@).push(
        v,
    ));
}

fn table_from_probes(probes: &Vec<Probe>, layout: &LayoutSnapshot) -> (r: KeysymTable)
    ensures
        r@ == table_of(probes_view(probes@), layout.bindings_view()),
{
    let ghost p = probes_view(probes@);
    let ghost b = layout.bindings_view();
    let mut entries: Vec<Resolution> = Vec::new();
    let mut i: usize = 0;
    while i < probes.len()
        invariant
            p == probes_view(probes@),
            b == layout.bindings_view(),
            i <= probes@.len(),
            entries@.map_values(|e: Resolution| e@) == table_of(p.take(i as int), b),
        decreases probes.len() - i,
    {
        let q = &probes[i];
        assert(p.take(i + 1).drop_last() == p.take(i as int));
        assert(p.take(i + 1).last() == (q.code, q.modifiers@));
        let ghost t = table_of(p.take(i as int), b);
        assert(table_of(p.take(i + 1), b) == match symbol_of(b, q.code, q.modifiers@) {
            Some(c) => if has_symbol(t, c) {
                t
            } else {
                t.push((c, q.code, q.modifiers@))
            },
            None => t,
        });
        let sym = layout_symbol(layout, q.code, &q.modifiers);
        if let Some(c) = sym {
            let found = find_symbol(&entries, c);
            if found.is_none() {
                let m = copy_codes(&q.modifiers);
                push_entry(&mut entries, Resolution { symbol: c, code: q.code, modifiers: m });
            }
        }
        i += 1;
    }
    assert(p.take(p.len() as int) == p);
    KeysymTable { entries }
}

/// Builds the resolution table of `layout`: every key of the layout is tried
/// with every subset of the modifier codes `mods` of at most `max_len`
/// members, by ascending subset size, then ascending key code, then
/// ascending modifier codes; the first combination that yields a symbol is
/// the one recorded for it.
pub fn resolve(layout: &LayoutSnapshot, mods: &[u32], max_len: usize) -> (r: KeysymTable)
    ensures
        r@ == resolution_table(layout, mods@, max_len as nat),
{
    let sorted = ascending_modifiers(mods);
    proof {
        let c = ascending_of(mods@);
        assert(strictly_ascending(c) && same_values(c, mods@));
        assert(same_values(c, sorted@));
        lemma_ascending_unique(c, sorted@);
    }
    let probes = all_probes(layout.min_keycode, layout.max_keycode, &sorted, max_len);
    table_from_probes(&probes, layout)
}

proof fn lemma_probe_sizes(lo: int, hi: int, mods: Seq<u32>, n: nat)
    ensures
        forall|i: int|
            0 <= i < probe_order(lo, hi, mods, n).len() ==> #[trigger] probe_order(
                lo,
                hi,
                mods,
                n,
            )[i].1.len() < n,
    decreases n,
{
    if n > 0 {
        let k = (n - 1) as nat;
        lemma_probe_sizes(lo, hi, mods, k);
        lemma_subset_sizes(mods, k);
        lemma_code_probe_sizes(lo, hi, subsets(mods, k), k);
        let a = probe_order(lo, hi, mods, k);
        let b = probes_for_codes(lo, hi, subsets(mods, k));
        assert forall|i: int| 0 <= i < probe_order(lo, hi, mods, n).len() implies #[trigger] probe_order(
            lo,
            hi,
            mods,
            n,
        )[i].1.len() < n by {
            if i < a.len() {
                assert(probe_order(lo, hi, mods, n)[i] == a[i]);
            } else {
                assert(probe_order(lo, hi, mods, n)[i] == b[i - a.len()]);
            }
        }
    }
}

proof fn lemma_code_probe_sizes(lo: int, hi: int, subs: Seq<Seq<u32>>, k: nat)
    requires
        forall|i: int| 0 <= i < subs.len() ==> #[trigger] subs[i].len() == k,
    ensures
        forall|i: int|
            0 <= i < probes_for_codes(lo, hi, subs).len() ==> #[trigger] probes_for_codes(
                lo,
                hi,
                subs,
            )[i].1.len() == k,
    decreases hi - lo,
{
    if hi > lo {
        lemma_code_probe_sizes(lo, hi - 1, subs, k);
        let a = probes_for_codes(lo, hi - 1, subs);
        let b = subs.map_values(|s: Seq<u32>| ((hi - 1) as u32, s));
        assert forall|i: int| 0 <= i < probes_for_codes(lo, hi, subs).len() implies #[trigger] probes_for_codes(
            lo,
            hi,
            subs,
        )[i].1.len() == k by {
            if i < a.len() {
                assert(probes_for_codes(lo, hi, subs)[i] == a[i]);
            } else {
                assert(probes_for_codes(lo, hi, subs)[i] == b[i - a.len()]);
            }
        }
    }
}

proof fn lemma_table_sizes(p: Seq<(u32, Seq<u32>)>, b: Seq<(u32, Seq<u32>, char)>, n: nat)
    requires
        forall|i: int| 0 <= i < p.len() ==> #[trigger] p[i].1.len() < n,
    ensures
        forall|i: int| 0 <= i < table_of(p, b).len() ==> #[trigger] table_of(p, b)[i].2.len() < n,
    decreases p.len(),
{
    if p.len() > 0 {
        assert forall|i: int| 0 <= i < p.drop_last().len() implies #[trigger] p.drop_last()[i].1.len() < n by {
            assert(p.drop_last()[i] == p[i]);
        }
        lemma_table_sizes(p.drop_last(), b, n);
        assert(p.last() == p[p.len() - 1]);
        let t = table_of(p.drop_last(), b);
        assert forall|i: int| 0 <= i < table_of(p, b).len() implies #[trigger] table_of(p, b)[i].2.len() < n by {
            if i < t.len() {
                assert(table_of(p, b)[i] == t[i]);
            } else {
                assert(table_of(p, b)[i].2 == p.last().1);
            }
        }
    }
}

/// No entry of a resolution table holds more modifiers than the bound it
/// was built with.
pub proof fn lemma_entries_within_bound(layout: &LayoutSnapshot, mods: Seq<u32>, max_len: nat)
    ensures
        forall|i: int|
            0 <= i < resolution_table(layout, mods, max_len).len() ==> #[trigger] resolution_table(
                layout,
                mods,
                max_len,
            )[i].2.len() <= max_len,
{
    let p = probe_order(
        layout.min_keycode as int,
        layout.max_keycode + 1,
        ascending_of(mods),
        max_len + 1,
    );
    lemma_probe_sizes(
        layout.min_keycode as int,
        layout.max_keycode + 1,
        ascending_of(mods),
        max_len + 1,
    );
    lemma_table_sizes(p, layout.bindings_view(), max_len + 1);
}

/// Resolving the same layout with the same modifier codes and bound twice
/// gives the same table.
pub proof fn lemma_resolution_deterministic(
    layout: &LayoutSnapshot,
    mods: Seq<u32>,
    max_len: nat,
    first: Seq<(char, u32, Seq<u32>)>,
    second: Seq<(char, u32, Seq<u32>)>,
)
    requires
        first == resolution_table(layout, mods, max_len),
        second == resolution_table(layout, mods, max_len),
    ensures
        first == second,
{
}


proof fn lemma_entry_from_push(t: Seq<(char, u32, Seq<u32>)>, x: (char, u32, Seq<u32>), i: int, c: char)
    requires
        0 <= i <= t.len(),
    ensures
        (exists|k: int| i <= k < t.len() && #[trigger] t[k].0 == c) ==> entry_from(t.push(x), i, c)
            == entry_from(t, i, c) && entry_from(t, i, c) is Some,
        (forall|k: int| i <= k < t.len() ==> #[trigger] t[k].0 != c) ==> entry_from(t.push(x), i, c)
            == (if x.0 == c {
            Some((x.1, x.2))
        } else {
            None
        }) && entry_from(t, i, c) is None,
    decreases t.len() - i,
{
    let u = t.push(x);
    if i < t.len() {
        lemma_entry_from_push(t, x, i + 1, c);
        assert(u[i] == t[i]);
        if t[i].0 != c {
            if exists|k: int| i <= k < t.len() && #[trigger] t[k].0 == c {
                let k = choose|k: int| i <= k < t.len() && #[trigger] t[k].0 == c;
                assert(k != i);
                assert(i + 1 <= k < t.len() && t[k].0 == c);
            }
        }
    } else {
        assert(u[i] == x);
        assert(entry_from(u, i + 1, c) is None);
    }
}

proof fn lemma_entry_push(t: Seq<(char, u32, Seq<u32>)>, x: (char, u32, Seq<u32>), c: char)
    ensures
        has_symbol(t, c) ==> entry_for(t.push(x), c) == entry_for(t, c) && entry_for(t, c) is Some,
        !has_symbol(t, c) ==> entry_for(t, c) is None && entry_for(t.push(x), c) == (if x.0 == c {
            Some((x.1, x.2))
        } else {
            None
        }),
{
    lemma_entry_from_push(t, x, 0, c);
}

proof fn lemma_entry_absent(t: Seq<(char, u32, Seq<u32>)>, c: char)
    ensures
        !has_symbol(t, c) ==> entry_for(t, c) is None,
        has_symbol(t, c) ==> entry_for(t, c) is Some,
    decreases t.len(),
{
    if t.len() > 0 {
        lemma_entry_push(t.drop_last(), t.last(), c);
        assert(t.drop_last().push(t.last()) == t);
        if has_symbol(t, c) && !has_symbol(t.drop_last(), c) {
            let k = choose|k: int| 0 <= k < t.len() && #[trigger] t[k].0 == c;
            if k < t.len() - 1 {
                assert(t.drop_last()[k].0 == c);
            }
        }
        if !has_symbol(t, c) && has_symbol(t.drop_last(), c) {
            let k = choose|k: int| 0 <= k < t.drop_last().len() && #[trigger] t.drop_last()[k].0 == c;
            assert(t[k].0 == c);
        }
    }
}

/// Whether probe `j` of `p` is the first that yields `c`.
pub open spec fn first_yielding(p: Seq<(u32, Seq<u32>)>, b: Seq<(u32, Seq<u32>, char)>, c: char, j: int) -> bool {
    &&& 0 <= j < p.len()
    &&& symbol_of(b, p[j].0, p[j].1) == Some(c)
    &&& forall|k: int| 0 <= k < j ==> symbol_of(b, #[trigger] p[k].0, p[k].1) != Some(c)
}

proof fn lemma_table_first_found(p: Seq<(u32, Seq<u32>)>, b: Seq<(u32, Seq<u32>, char)>, c: char)
    ensures
        (forall|j: int| 0 <= j < p.len() ==> symbol_of(b, #[trigger] p[j].0, p[j].1) != Some(c))
            ==> entry_for(table_of(p, b), c) is None,
        forall|j: int|
            #[trigger] first_yielding(p, b, c, j) ==> entry_for(table_of(p, b), c) == Some(p[j]),
    decreases p.len(),
{
    if p.len() > 0 {
        let p0 = p.drop_last();
        let q = p.last();
        let t = table_of(p0, b);
        lemma_table_first_found(p0, b, c);
        lemma_entry_absent(t, c);
        assert forall|j: int| 0 <= j < p0.len() implies #[trigger] p0[j] == p[j] by {}
        match symbol_of(b, q.0, q.1) {
            Some(d) => {
                if !has_symbol(t, d) {
                    lemma_entry_push(t, (d, q.0, q.1), c);
                }
            },
            None => {},
        }
        if forall|j: int| 0 <= j < p.len() ==> symbol_of(b, #[trigger] p[j].0, p[j].1) != Some(c) {
            assert forall|j: int| 0 <= j < p0.len() implies symbol_of(b, #[trigger] p0[j].0, p0[j].1)
                != Some(c) by {
                assert(p0[j] == p[j]);
            }
        }
        assert forall|j: int| #[trigger] first_yielding(p, b, c, j) implies entry_for(
            table_of(p, b),
            c,
        ) == Some(p[j]) by {
            if j < p0.len() {
                assert(first_yielding(p0, b, c, j)) by {
                    assert forall|k: int| 0 <= k < j implies symbol_of(b, #[trigger] p0[k].0, p0[k].1)
                        != Some(c) by {
                        assert(p0[k] == p[k]);
                        assert(symbol_of(b, p[k].0, p[k].1) != Some(c));
                    }
                }
            } else {
                assert forall|k: int| 0 <= k < p0.len() implies symbol_of(b, #[trigger] p0[k].0, p0[k].1)
                    != Some(c) by {
                    assert(p0[k] == p[k]);
                    assert(symbol_of(b, p[k].0, p[k].1) != Some(c));
                }
                assert(q == p[j]);
            }
        }
    }
}

/// What the table records for a symbol is the first combination, in the
/// resolver's probe order, that yields it; a symbol that no combination
/// yields has no entry.
pub proof fn lemma_first_combination_wins(layout: &LayoutSnapshot, mods: Seq<u32>, max_len: nat, c: char)
    ensures
        ({
            let p = probe_order(
                layout.min_keycode as int,
                layout.max_keycode + 1,
                ascending_of(mods),
                max_len + 1,
            );
            let b = layout.bindings_view();
            &&& forall|j: int|
                #[trigger] first_yielding(p, b, c, j) ==> entry_for(
                    resolution_table(layout, mods, max_len),
                    c,
                ) == Some(p[j])
            &&& (forall|j: int| 0 <= j < p.len() ==> symbol_of(b, #[trigger] p[j].0, p[j].1) != Some(c))
                ==> entry_for(resolution_table(layout, mods, max_len), c) is None
        }),
{
    let p = probe_order(
        layout.min_keycode as int,
        layout.max_keycode + 1,
        ascending_of(mods),
        max_len + 1,
    );
    lemma_table_first_found(p, layout.bindings_view(), c);
}

} // verus!
