//! `photoflow backup`: the decisions behind uploading local originals to B2.
//!
//! Idempotency primitive: for each candidate, the remote object's size is looked up and the
//! file is skipped if it exists with the same size; only missing or size-mismatched files
//! are uploaded. This module chooses the candidates from a walk of `photos_root`, names
//! their object keys, partitions them by what the remote reported, and decides retries;
//! the network work itself is done by the caller. Nothing here ever deletes.

use vstd::prelude::*;
use crate::config::Config;
use crate::fs_util::{FileEntry, has_extension, spec_has_extension};
use crate::order::{Ordered, compare_strs, compare_text, is_sorted, lemma_compare_text, lemma_multiset_map, lemma_multiset_no_duplicates, sort_ordered};
use crate::path::{Comp, PathComponent, comp_text, component_text, components, extension, is_inner_comp, is_rooted, join_path, lemma_components_of_join, lemma_inner_components, lemma_nonempty_path_has_components, lemma_normal_components_plain, lemma_pieces_comps_plain, lemma_split_pieces_concat, lemma_split_pieces_nonempty, lemma_split_plain_piece, pieces_comps, split_pieces, path_extension, strip_path_prefix, strip_prefix, chars_of, str_eq};
use crate::text::{append_str, ascii_lower_char, char_len, empty_string, lower_seq, push_char, to_owned_string};

verus! {

/// Attempts after the first one before an upload is given up.
pub const UPLOAD_RETRY_ATTEMPTS: u32 = 4;

/// Delay before the first retry, in milliseconds.
pub const RETRY_BASE_DELAY_MS: u64 = 500;

/// Ceiling on the retry delay, in milliseconds.
pub const RETRY_MAX_DELAY_MS: u64 = 30000;

/// Exponential-backoff retry policy for a single upload. Delays are in milliseconds.
#[derive(Debug, Clone, Copy)]
pub struct RetryPolicy {
    /// How many times to retry *after* the first attempt (0 = no retries).
    pub attempts: u32,
    /// Delay before the first retry; doubles each subsequent retry up to `max`.
    pub base: u64,
    /// Ceiling on the backoff delay.
    pub max: u64,
}

/// `2^e`.
pub open spec fn pow2(e: nat) -> nat
    decreases e,
{
    if e == 0 { 1 } else { 2 * pow2((e - 1) as nat) }
}

/// The delay before retry number `attempt + 1`: `base * 2^min(attempt, 16)`, at most `max`.
pub open spec fn spec_delay_for(policy: RetryPolicy, attempt: int) -> int {
    let e: nat = if attempt < 16 { attempt as nat } else { 16 };
    let d = policy.base * pow2(e);
    if d < policy.max { d } else { policy.max as int }
}

/// What kind of failure an upload attempt ended in.
#[derive(Debug, Clone, Copy, PartialEq, Eq, Structural)]
pub enum FailureKind {
    /// Reading the local file failed (it is missing or unreadable).
    LocalIo,
    /// The object store answered with an error, or the network failed.
    Store,
    /// The store client could not be built.
    ClientBuild,
}

/// A missing or unreadable *local* file won't fix itself, so those fail fast. Everything
/// else (remote, network, throttling) is worth retrying.
pub fn is_transient(kind: FailureKind) -> (r: bool)
    ensures
        r == (kind != FailureKind::LocalIo),
{
    match kind {
        FailureKind::LocalIo => false,
        FailureKind::Store => true,
        FailureKind::ClientBuild => true,
    }
}

impl RetryPolicy {
    /// The production policy used by `backup`: 4 retries, 500 ms doubling up to 30 s.
    pub fn standard() -> (p: RetryPolicy)
        ensures
            p.attempts == 4 && p.base == 500 && p.max == 30000,
    {
        RetryPolicy { attempts: UPLOAD_RETRY_ATTEMPTS, base: RETRY_BASE_DELAY_MS, max: RETRY_MAX_DELAY_MS }
    }

    /// No retries.
    pub fn none() -> (p: RetryPolicy)
        ensures
            p.attempts == 0 && p.base == 0 && p.max == 0,
    {
        RetryPolicy { attempts: 0, base: 0, max: 0 }
    }

    /// The delay before retrying after failed attempt number `attempt` (0-based).
    pub fn delay_for(&self, attempt: u32) -> (d: u64)
        ensures
            d as int == spec_delay_for(*self, attempt as int),
    {
        let e: u32 = if attempt < 16 { attempt } else { 16 };
        let mut factor: u128 = 1;
        let mut k: u32 = 0;
        while k < e
            invariant
                k <= e <= 16,
                factor == pow2(k as nat),
                factor <= 65536,
            decreases e - k,
        {
            proof {
                lemma_pow2_bound((k + 1) as nat);
            }
            factor = factor * 2;
            k = k + 1;
        }
        proof {
            assert(self.base * factor <= 0xffff_ffff_ffff_ffff * 65536) by (nonlinear_arith)
                requires
                    self.base <= 0xffff_ffff_ffff_ffff,
                    factor <= 65536,
            ;
        }
        let d: u128 = (self.base as u128) * factor;
        if d < self.max as u128 {
            d as u64
        } else {
            self.max
        }
    }

    /// What to do after failed attempt number `attempt` (0-based): `Some(delay)` to retry
    /// after that many milliseconds, `None` to give up. Only transient failures are
    /// retried, and at most `attempts` times.
    pub fn next_delay(&self, attempt: u32, transient: bool) -> (r: Option<u64>)
        ensures
            r is Some <==> (attempt < self.attempts && transient),
            r matches Some(d) ==> d as int == spec_delay_for(*self, attempt as int),
    {
        if attempt >= self.attempts || !transient {
            None
        } else {
            Some(self.delay_for(attempt))
        }
    }
}

proof fn lemma_pow2_bound(e: nat)
    requires
        e <= 16,
    ensures
        1 <= pow2(e) <= 65536,
        pow2(e) == 2 * pow2((e - 1) as nat) || e == 0,
{
    lemma_pow2_monotone(0, e);
    lemma_pow2_monotone(e, 16);
    reveal_with_fuel(pow2, 17);
    assert(pow2(16) == 65536);
}

proof fn lemma_pow2_monotone(a: nat, b: nat)
    requires
        a <= b,
    ensures
        pow2(a) <= pow2(b),
    decreases b,
{
    if a < b {
        lemma_pow2_monotone(a, (b - 1) as nat);
    }
}

/// Retry delays never shrink from one attempt to the next, and never exceed `max`.
pub proof fn lemma_retry_delays_grow_to_max(policy: RetryPolicy, a: int, b: int)
    requires
        0 <= a <= b,
    ensures
        spec_delay_for(policy, a) <= spec_delay_for(policy, b),
        spec_delay_for(policy, b) <= policy.max,
{
    let ea: nat = if a < 16 { a as nat } else { 16 };
    let eb: nat = if b < 16 { b as nat } else { 16 };
    lemma_pow2_monotone(ea, eb);
    assert(policy.base * pow2(ea) <= policy.base * pow2(eb)) by (nonlinear_arith)
        requires
            pow2(ea) <= pow2(eb),
            policy.base >= 0,
    ;
}

/// A local file eligible for backup, paired with its remote object key.
#[derive(Debug, Clone)]
pub struct Candidate {
    pub key: String,
    pub path: String,
    pub size: u64,
}

impl View for Candidate {
    type V = (Seq<char>, Seq<char>, u64);

    open spec fn view(&self) -> (Seq<char>, Seq<char>, u64) {
        (self.key@, self.path@, self.size)
    }
}

impl Ordered for Candidate {
    open spec fn order(self, other: Self) -> int {
        compare_text(self.key@, other.key@)
    }

    fn compare(&self, other: &Self) -> (r: i8) {
        compare_strs(self.key.as_str(), other.key.as_str())
    }

    proof fn lemma_order(a: Self, b: Self, c: Self) {
        lemma_compare_text(a.key@, b.key@, c.key@);
    }
}

/// A copy of `c`.
pub fn copy_candidate(c: &Candidate) -> (r: Candidate)
    ensures
        r@ == c@,
{
    Candidate { key: c.key.clone(), path: c.path.clone(), size: c.size }
}

/// Sum of the sizes of `cs`.
pub open spec fn total_size(cs: Seq<(Seq<char>, Seq<char>, u64)>) -> int
    decreases cs.len(),
{
    if cs.len() == 0 { 0 } else { total_size(cs.drop_last()) + cs.last().2 }
}

/// Outcome of comparing the local tree against the remote: what still needs uploading and
/// how many files are already present.
#[derive(Debug)]
pub struct Plan {
    pub to_upload: Vec<Candidate>,
    pub skipped: usize,
}

impl Plan {
    /// Total bytes still to upload.
    pub fn pending_bytes(&self) -> (total: u64)
        requires
            total_size(self.to_upload@.map_values(|c: Candidate| c@)) <= u64::MAX,
        ensures
            total as int == total_size(self.to_upload@.map_values(|c: Candidate| c@)),
    {
        let ghost all = self.to_upload@.map_values(|c: Candidate| c@);
        let mut total: u64 = 0;
        let mut i: usize = 0;
        while i < self.to_upload.len()
            invariant
                all == self.to_upload@.map_values(|c: Candidate| c@),
                total_size(all) <= u64::MAX,
                i <= self.to_upload@.len(),
                total as int == total_size(all.take(i as int)),
            decreases self.to_upload@.len() - i,
        {
            proof {
                assert(all.take(i + 1).drop_last() =~= all.take(i as int));
                lemma_total_size_prefix(all, i + 1);
            }
            total = total + self.to_upload[i].size;
            i = i + 1;
        }
        assert(all.take(all.len() as int) =~= all);
        total
    }
}

proof fn lemma_total_size_prefix(cs: Seq<(Seq<char>, Seq<char>, u64)>, k: int)
    requires
        0 <= k <= cs.len(),
    ensures
        total_size(cs.take(k)) <= total_size(cs),
    decreases cs.len(),
{
    if k < cs.len() {
        assert(cs.drop_last().take(k) =~= cs.take(k));
        lemma_total_size_prefix(cs.drop_last(), k);
    } else {
        assert(cs.take(k) =~= cs);
    }
}

/// `s` with leading `/` removed.
pub open spec fn trim_start_slashes(s: Seq<char>) -> Seq<char>
    decreases s.len(),
{
    if s.len() > 0 && s[0] == '/' { trim_start_slashes(s.drop_first()) } else { s }
}

/// `s` with trailing `/` removed.
pub open spec fn trim_end_slashes(s: Seq<char>) -> Seq<char>
    decreases s.len(),
{
    if s.len() > 0 && s.last() == '/' { trim_end_slashes(s.drop_last()) } else { s }
}

/// `str::trim_matches('/')`.
pub open spec fn trim_slashes(s: Seq<char>) -> Seq<char> {
    trim_end_slashes(trim_start_slashes(s))
}

/// `parts` joined with `/` between them.
pub open spec fn join_slash(parts: Seq<Seq<char>>) -> Seq<char>
    decreases parts.len(),
{
    if parts.len() == 0 {
        Seq::empty()
    } else if parts.len() == 1 {
        parts[0]
    } else {
        join_slash(parts.drop_last()) + seq!['/'] + parts.last()
    }
}

/// Object key of `file`: `key_prefix` (with surrounding slashes trimmed) and the path of
/// `file` relative to `photos_root`, joined with forward slashes; `None` when `file` is not
/// under `photos_root`.
pub open spec fn spec_object_key(photos_root: Seq<char>, file: Seq<char>, key_prefix: Seq<char>) -> Option<Seq<char>> {
    match strip_prefix(file, photos_root) {
        None => None,
        Some(rest) => {
            let rel = join_slash(rest.map_values(|c: Comp| comp_text(c)));
            let prefix = trim_slashes(key_prefix);
            Some(if prefix.len() == 0 { rel } else { prefix + seq!['/'] + rel })
        },
    }
}

/// The object key of a file at `photos_root` joined with a relative path `rel` made of
/// normal components: `rel`'s components joined with `/` (with no leading `/`), under the
/// trimmed `key_prefix` when that is not empty. Joining that key back onto `photos_root`
/// gives the same path as the file (`Path` equality: the same components).
pub proof fn lemma_object_key_of_joined_path(photos_root: Seq<char>, rel: Seq<char>, key_prefix: Seq<char>)
    requires
        !is_rooted(rel),
        forall|i: int| 0 <= i < components(rel).len() ==> (#[trigger] components(rel)[i]) is Normal,
    ensures
        ({
            let k0 = join_slash(components(rel).map_values(|c: Comp| comp_text(c)));
            let q = trim_slashes(key_prefix);
            &&& spec_object_key(photos_root, join_path(photos_root, rel), Seq::empty()) == Some(k0)
            &&& spec_object_key(photos_root, join_path(photos_root, rel), key_prefix)
                == Some(if q.len() == 0 { k0 } else { q + seq!['/'] + k0 })
            &&& !is_rooted(k0)
            &&& components(join_path(photos_root, k0)) == components(join_path(photos_root, rel))
        }),
{
    lemma_components_of_join(photos_root, rel);
    let p = components(join_path(photos_root, rel));
    let b = components(photos_root);
    assert(p.take(b.len() as int) =~= b);
    assert(p.skip(b.len() as int) =~= components(rel));
    assert(trim_start_slashes(Seq::<char>::empty()) == Seq::<char>::empty());
    assert(trim_slashes(Seq::<char>::empty()) == Seq::<char>::empty());
    lemma_key_names_relative_path(rel);
    let k0 = join_slash(components(rel).map_values(|c: Comp| comp_text(c)));
    lemma_components_of_join(photos_root, k0);
}

/// The parts of a relative path made of normal components, joined with `/`, name a
/// relative path with the same components.
proof fn lemma_key_names_relative_path(rel: Seq<char>)
    requires
        !is_rooted(rel),
        forall|i: int| 0 <= i < components(rel).len() ==> (#[trigger] components(rel)[i]) is Normal,
    ensures
        ({
            let k0 = join_slash(components(rel).map_values(|c: Comp| comp_text(c)));
            &&& !is_rooted(k0)
            &&& components(k0) == components(rel)
            &&& forall|i: int| 0 <= i < components(k0).len() ==> (#[trigger] components(k0)[i]) is Normal
        }),
{
    let cs = components(rel);
    let ts = cs.map_values(|c: Comp| comp_text(c));
    let k0 = join_slash(ts);
    lemma_normal_components_plain(rel);
    assert forall|k: int| 0 <= k < ts.len() implies is_inner_comp(Comp::Normal(#[trigger] ts[k])) by {
        assert(cs[k] is Normal && is_inner_comp(cs[k]));
        assert(cs[k] == Comp::Normal(ts[k]));
    }
    assert(plain_parts(ts));
    assert(ts.map_values(|p: Seq<char>| Comp::Normal(p)) =~= cs) by {
        assert forall|k: int| 0 <= k < cs.len() implies ts.map_values(|p: Seq<char>| Comp::Normal(p))[k] == cs[k] by {
            assert(cs[k] is Normal);
        }
    }
    if ts.len() == 0 {
        assert(k0 == Seq::<char>::empty());
        assert(split_pieces(k0) == seq![Seq::<char>::empty()]);
        assert(seq![Seq::<char>::empty()].drop_last() =~= Seq::<Seq<char>>::empty());
        assert(pieces_comps(seq![Seq::<char>::empty()].drop_last(), false) == Seq::<Comp>::empty());
        assert(pieces_comps(split_pieces(k0), false) =~= Seq::<Comp>::empty());
        assert(components(k0) =~= cs);
    } else {
        lemma_split_join_slash(ts);
        lemma_join_slash_first(ts);
        assert(!is_rooted(k0));
        lemma_pieces_comps_plain(ts, false);
        assert(components(k0) =~= pieces_comps(split_pieces(k0), false));
        assert(components(k0) == cs);
    }
}

/// Every part is non-empty and holds no `/`.
pub open spec fn plain_parts(xs: Seq<Seq<char>>) -> bool {
    forall|k: int| 0 <= k < xs.len() ==> (#[trigger] xs[k]).len() > 0 && !xs[k].contains('/')
}

proof fn lemma_join_slash_shape(xs: Seq<Seq<char>>)
    requires
        plain_parts(xs),
    ensures
        xs.len() >= 1 ==> join_slash(xs).len() >= xs.last().len() >= 1,
        xs.len() >= 1 ==> join_slash(xs).skip(join_slash(xs).len() - xs.last().len()) == xs.last(),
        xs.len() == 1 ==> !join_slash(xs).contains('/'),
        xs.len() >= 2 ==> join_slash(xs)[join_slash(xs).len() - xs.last().len() - 1] == '/',
        xs.len() >= 2 ==> join_slash(xs).take(join_slash(xs).len() - xs.last().len() - 1) == join_slash(xs.drop_last()),
{
    if xs.len() == 1 {
        assert(xs.last() == xs[0]);
        assert(join_slash(xs).skip(0) =~= xs[0]);
    } else if xs.len() >= 2 {
        let a = join_slash(xs.drop_last());
        let l = xs.last();
        assert(xs[xs.len() - 1] == l);
        let j = a + seq!['/'] + l;
        assert(join_slash(xs) == j);
        assert(j.skip(j.len() - l.len()) =~= l);
        assert(j.take(j.len() - l.len() - 1) =~= a);
    }
}

/// `join_slash` tells its parts apart when they are non-empty and hold no `/`.
proof fn lemma_join_slash_injective(xs: Seq<Seq<char>>, ys: Seq<Seq<char>>)
    requires
        plain_parts(xs),
        plain_parts(ys),
        join_slash(xs) == join_slash(ys),
    ensures
        xs == ys,
    decreases xs.len(),
{
    lemma_join_slash_shape(xs);
    lemma_join_slash_shape(ys);
    let a = join_slash(xs);
    if xs.len() == 0 || ys.len() == 0 {
        assert(xs.len() == 0 && ys.len() == 0);
        assert(xs =~= ys);
    } else if xs.len() == 1 && ys.len() >= 2 {
        let i = a.len() - ys.last().len() - 1;
        assert(a[i] == '/');
        assert(a.contains('/'));
    } else if ys.len() == 1 && xs.len() >= 2 {
        let i = a.len() - xs.last().len() - 1;
        assert(a[i] == '/');
        assert(a.contains('/'));
    } else if xs.len() == 1 && ys.len() == 1 {
        assert(xs[0] == xs.last() && ys[0] == ys.last());
        assert(xs =~= ys);
    } else {
        let lx = xs.last();
        let ly = ys.last();
        assert(xs[xs.len() - 1] == lx && ys[ys.len() - 1] == ly);
        if lx.len() < ly.len() {
            let i = a.len() - lx.len() - 1;
            assert(a[i] == '/');
            let k = i - (a.len() - ly.len());
            assert(a.skip(a.len() - ly.len())[k] == a[i]);
            assert(ly[k] == '/');
            assert(ly.contains('/'));
        } else if ly.len() < lx.len() {
            let i = a.len() - ly.len() - 1;
            assert(a[i] == '/');
            let k = i - (a.len() - lx.len());
            assert(a.skip(a.len() - lx.len())[k] == a[i]);
            assert(lx[k] == '/');
            assert(lx.contains('/'));
        } else {
            let xp = xs.drop_last();
            let yp = ys.drop_last();
            assert(plain_parts(xp)) by {
                assert forall|k: int| 0 <= k < xp.len() implies (#[trigger] xp[k]).len() > 0 && !xp[k].contains('/') by {
                    assert(xp[k] == xs[k]);
                }
            }
            assert(plain_parts(yp)) by {
                assert forall|k: int| 0 <= k < yp.len() implies (#[trigger] yp[k]).len() > 0 && !yp[k].contains('/') by {
                    assert(yp[k] == ys[k]);
                }
            }
            lemma_join_slash_injective(xp, yp);
            assert(xs =~= xp.push(lx));
            assert(ys =~= yp.push(ly));
        }
    }
}

/// Splitting parts joined with `/` gives the parts back.
proof fn lemma_split_join_slash(ts: Seq<Seq<char>>)
    requires
        plain_parts(ts),
        ts.len() >= 1,
    ensures
        split_pieces(join_slash(ts)) == ts,
    decreases ts.len(),
{
    let l = ts.last();
    assert(ts[ts.len() - 1] == l);
    lemma_split_plain_piece(l);
    if ts.len() == 1 {
        assert(ts[0] == l);
        assert(ts =~= seq![l]);
    } else {
        let q = ts.drop_last();
        assert(plain_parts(q)) by {
            assert forall|k: int| 0 <= k < q.len() implies (#[trigger] q[k]).len() > 0 && !q[k].contains('/') by {
                assert(q[k] == ts[k]);
            }
        }
        lemma_split_join_slash(q);
        let a = join_slash(q) + seq!['/'];
        assert(join_slash(ts) == a + l);
        lemma_split_pieces_concat(a, l);
        assert(a.drop_last() =~= join_slash(q));
        assert(a.last() == '/');
        lemma_split_pieces_nonempty(join_slash(q));
        assert(split_pieces(a) == split_pieces(join_slash(q)).push(Seq::<char>::empty()));
        assert(split_pieces(a).drop_last() =~= q);
        assert(Seq::<char>::empty() + l =~= l);
        assert(seq![l].drop_first() =~= Seq::<Seq<char>>::empty());
        assert(split_pieces(join_slash(ts)) =~= ts);
    }
}

/// Joined parts start with the first character of the first part.
proof fn lemma_join_slash_first(ts: Seq<Seq<char>>)
    requires
        plain_parts(ts),
        ts.len() >= 1,
    ensures
        join_slash(ts).len() > 0,
        join_slash(ts)[0] == ts[0][0],
    decreases ts.len(),
{
    assert(ts[0].len() > 0);
    if ts.len() >= 2 {
        let q = ts.drop_last();
        assert(plain_parts(q)) by {
            assert forall|k: int| 0 <= k < q.len() implies (#[trigger] q[k]).len() > 0 && !q[k].contains('/') by {
                assert(q[k] == ts[k]);
            }
        }
        lemma_join_slash_first(q);
        assert(q[0] == ts[0]);
    }
}

/// Under a non-empty `photos_root`, two files with the same object key (for the same
/// prefix) have the same path components: keys name files one to one.
pub proof fn lemma_object_key_injective(photos_root: Seq<char>, f1: Seq<char>, f2: Seq<char>, key_prefix: Seq<char>)
    requires
        photos_root.len() > 0,
        spec_object_key(photos_root, f1, key_prefix) is Some,
        spec_object_key(photos_root, f1, key_prefix) == spec_object_key(photos_root, f2, key_prefix),
    ensures
        components(f1) == components(f2),
{
    let b = components(photos_root);
    let c1 = components(f1);
    let c2 = components(f2);
    lemma_nonempty_path_has_components(photos_root);
    lemma_inner_components(f1);
    lemma_inner_components(f2);
    let r1 = c1.skip(b.len() as int);
    let r2 = c2.skip(b.len() as int);
    let t1 = r1.map_values(|c: Comp| comp_text(c));
    let t2 = r2.map_values(|c: Comp| comp_text(c));
    assert forall|k: int| 0 <= k < r1.len() implies is_inner_comp(#[trigger] r1[k]) by {
        assert(r1[k] == c1[k + b.len()]);
    }
    assert forall|k: int| 0 <= k < r2.len() implies is_inner_comp(#[trigger] r2[k]) by {
        assert(r2[k] == c2[k + b.len()]);
    }
    assert(plain_parts(t1)) by {
        assert forall|k: int| 0 <= k < t1.len() implies (#[trigger] t1[k]).len() > 0 && !t1[k].contains('/') by {
            assert(is_inner_comp(r1[k]));
            if r1[k] is ParentDir {
                assert(!seq!['.', '.'].contains('/')) by {
                    if seq!['.', '.'].contains('/') {
                        let m = choose|m: int| 0 <= m < 2 && seq!['.', '.'][m] == '/';
                    }
                }
            }
        }
    }
    assert(plain_parts(t2)) by {
        assert forall|k: int| 0 <= k < t2.len() implies (#[trigger] t2[k]).len() > 0 && !t2[k].contains('/') by {
            assert(is_inner_comp(r2[k]));
            if r2[k] is ParentDir {
                assert(!seq!['.', '.'].contains('/')) by {
                    if seq!['.', '.'].contains('/') {
                        let m = choose|m: int| 0 <= m < 2 && seq!['.', '.'][m] == '/';
                    }
                }
            }
        }
    }
    let k1 = join_slash(t1);
    let k2 = join_slash(t2);
    let q = trim_slashes(key_prefix);
    if q.len() > 0 {
        let w1 = q + seq!['/'] + k1;
        let w2 = q + seq!['/'] + k2;
        assert(w1 == w2);
        assert(w1.skip(q.len() as int + 1) =~= k1);
        assert(w2.skip(q.len() as int + 1) =~= k2);
    }
    assert(k1 == k2);
    lemma_join_slash_injective(t1, t2);
    assert(r1.len() == r2.len()) by {
        assert(t1.len() == r1.len() && t2.len() == r2.len());
    }
    assert forall|k: int| 0 <= k < r1.len() implies r1[k] == r2[k] by {
        assert(t1[k] == t2[k]);
        assert(is_inner_comp(r1[k]) && is_inner_comp(r2[k]));
    }
    assert(r1 =~= r2);
    assert(c1 =~= b + r1);
    assert(c2 =~= b + r2);
}

/// Why the backup candidates could not be gathered.
#[derive(Debug)]
pub enum BackupError {
    /// The file is not under `photos_root`.
    NotUnderRoot { file: String },
    /// The file's size could not be read.
    UnreadableSize { path: String },
}

/// `str::trim_matches('/')`.
fn trim_slashes_str(s: &str) -> (r: String)
    ensures
        r@ == trim_slashes(s@),
{
    let cs = chars_of(s);
    let len = cs.len();
    let mut a: usize = 0;
    assert(s@.skip(0) =~= s@);
    while a < len && cs[a] == '/'
        invariant
            cs@ == s@,
            len == s@.len(),
            a <= len,
            trim_start_slashes(s@) == trim_start_slashes(s@.skip(a as int)),
        decreases len - a,
    {
        assert(s@.skip(a as int).drop_first() =~= s@.skip(a + 1));
        a = a + 1;
    }
    let mut b: usize = len;
    let ghost t = s@.skip(a as int);
    assert(trim_start_slashes(s@) == t);
    assert(t.take(t.len() as int) =~= t);
    while b > a && cs[b - 1] == '/'
        invariant
            cs@ == s@,
            len == s@.len(),
            a <= b <= len,
            t == s@.skip(a as int),
            trim_end_slashes(t) == trim_end_slashes(t.take(b - a)),
        decreases b,
    {
        assert(t.take(b - a).drop_last() =~= t.take(b - a - 1));
        b = b - 1;
    }
    let out = s.substring_char(a, b);
    assert(out@ =~= t.take(b - a));
    to_owned_string(out)
}

/// Build the object key for `file`: `key_prefix` + path relative to `photos_root`, joined
/// with forward slashes.
pub fn object_key(photos_root: &str, file: &str, key_prefix: &str) -> (r: Result<String, BackupError>)
    ensures
        match spec_object_key(photos_root@, file@, key_prefix@) {
            Some(k) => r matches Ok(key) && key@ == k,
            None => r matches Err(BackupError::NotUnderRoot { file: f }) && f@ == file@,
        },
{
    let rest = match strip_path_prefix(file, photos_root) {
        None => return Err(BackupError::NotUnderRoot { file: to_owned_string(file) }),
        Some(rest) => rest,
    };
    let ghost texts = rest@.map_values(|c: PathComponent| c@).map_values(|c: Comp| comp_text(c));
    let mut rel = empty_string();
    let mut i: usize = 0;
    assert(texts.take(0) =~= Seq::<Seq<char>>::empty());
    while i < rest.len()
        invariant
            texts == rest@.map_values(|c: PathComponent| c@).map_values(|c: Comp| comp_text(c)),
            texts.len() == rest@.len(),
            i <= rest@.len(),
            rel@ == join_slash(texts.take(i as int)),
        decreases rest@.len() - i,
    {
        let t = component_text(&rest[i]);
        assert(texts[i as int] == t@);
        assert(texts.take(i + 1).drop_last() =~= texts.take(i as int));
        if i > 0 {
            push_char(&mut rel, '/');
        } else {
            assert(texts.take(1) =~= seq![t@]);
            assert(rel@ =~= Seq::<char>::empty());
        }
        append_str(&mut rel, t.as_str());
        i = i + 1;
    }
    assert(texts.take(texts.len() as int) =~= texts);
    let prefix = trim_slashes_str(key_prefix);
    if char_len(prefix.as_str()) == 0 {
        Ok(rel)
    } else {
        let mut key = prefix;
        push_char(&mut key, '/');
        append_str(&mut key, rel.as_str());
        Ok(key)
    }
}

/// `path`'s extension is a backup extension and not a skip extension.
pub open spec fn spec_is_eligible(path: Seq<char>, backup_extensions: Seq<String>, skip_extensions: Seq<String>) -> bool {
    spec_has_extension(path, backup_extensions) && !spec_has_extension(path, skip_extensions)
}

/// True if `path` should be backed up: its extension is in `backup_extensions` and not in
/// `skip_extensions` (skip wins on overlap). Both checks are case-insensitive.
pub fn is_eligible(path: &str, backup_extensions: &[String], skip_extensions: &[String]) -> (r: bool)
    ensures
        r == spec_is_eligible(path@, backup_extensions@, skip_extensions@),
{
    has_extension(path, backup_extensions) && !has_extension(path, skip_extensions)
}

/// The file can be turned into a candidate (or is not eligible at all).
pub open spec fn file_gatherable(f: FileEntry, root: Seq<char>, cfg: Config) -> bool {
    spec_is_eligible(f.path@, cfg.backup.backup_extensions@, cfg.backup.skip_extensions@) ==> (
    spec_object_key(root, f.path@, cfg.backup.key_prefix@) is Some && f.size is Some)
}

/// The candidates of the eligible files, in walk order.
pub open spec fn eligible_candidates(files: Seq<FileEntry>, root: Seq<char>, cfg: Config) -> Seq<(Seq<char>, Seq<char>, u64)>
    decreases files.len(),
{
    if files.len() == 0 {
        Seq::empty()
    } else {
        let prev = eligible_candidates(files.drop_last(), root, cfg);
        let f = files.last();
        if spec_is_eligible(f.path@, cfg.backup.backup_extensions@, cfg.backup.skip_extensions@) {
            prev.push((spec_object_key(root, f.path@, cfg.backup.key_prefix@).unwrap(), f.path@, f.size.unwrap()))
        } else {
            prev
        }
    }
}

/// Every backup-eligible file of a walk of `root` (`files`), as candidates sorted by key
/// for a deterministic (resumable) processing order. Fails on the first eligible file,
/// in walk order, that is not under `root` or whose size is unknown.
#[verifier::spinoff_prover]
pub fn gather_candidates(cfg: &Config, root: &str, files: &[FileEntry]) -> (r: Result<Vec<Candidate>, BackupError>)
    ensures
        match r {
            Ok(cs) => {
                &&& forall|i: int| 0 <= i < files@.len() ==> file_gatherable(#[trigger] files@[i], root@, *cfg)
                &&& cs@.map_values(|c: Candidate| c@).to_multiset() == eligible_candidates(files@, root@, *cfg).to_multiset()
                &&& is_sorted(cs@)
            },
            Err(e) => exists|i: int| {
                &&& 0 <= i < files@.len()
                &&& forall|j: int| 0 <= j < i ==> file_gatherable(#[trigger] files@[j], root@, *cfg)
                &&& !file_gatherable(files@[i], root@, *cfg)
                &&& if spec_object_key(root@, files@[i].path@, cfg.backup.key_prefix@) is None {
                    e matches BackupError::NotUnderRoot { file } && file@ == files@[i].path@
                } else {
                    e matches BackupError::UnreadableSize { path } && path@ == files@[i].path@
                }
            },
        },
{
    let mut out: Vec<Candidate> = Vec::new();
    let mut i: usize = 0;
    while i < files.len()
        invariant
            i <= files@.len(),
            forall|j: int| 0 <= j < i ==> file_gatherable(#[trigger] files@[j], root@, *cfg),
            out@.map_values(|c: Candidate| c@) == eligible_candidates(files@.take(i as int), root@, *cfg),
        decreases files@.len() - i,
    {
        let f = &files[i];
        assert(files@.take(i + 1).drop_last() =~= files@.take(i as int));
        assert(files@.take(i + 1).last() == files@[i as int]);
        if is_eligible(f.path.as_str(), cfg.backup.backup_extensions.as_slice(), cfg.backup.skip_extensions.as_slice()) {
            let key = match object_key(root, f.path.as_str(), cfg.backup.key_prefix.as_str()) {
                Ok(k) => k,
                Err(e) => {
                    assert(!file_gatherable(files@[i as int], root@, *cfg));
                    return Err(e);
                },
            };
            let size = match f.size {
                Some(s) => s,
                None => {
                    assert(!file_gatherable(files@[i as int], root@, *cfg));
                    return Err(BackupError::UnreadableSize { path: f.path.clone() });
                },
            };
            let c = Candidate { key, path: f.path.clone(), size };
            let ghost before = out@;
            out.push(c);
            assert(out@.map_values(|c: Candidate| c@) =~= before.map_values(|c: Candidate| c@).push(c@));
        }
        i = i + 1;
    }
    assert(files@.take(files@.len() as int) =~= files@);
    let sorted = sort_ordered(out);
    proof {
        lemma_multiset_map(sorted@, out@, |c: Candidate| c@);
    }
    Ok(sorted)
}

/// The keys of candidate views.
pub open spec fn view_keys(cs: Seq<(Seq<char>, Seq<char>, u64)>) -> Seq<Seq<char>> {
    cs.map_values(|t: (Seq<char>, Seq<char>, u64)| t.0)
}

/// Sorted candidates whose keys are those of eligible files with distinct keys are in
/// strictly increasing key order.
proof fn lemma_sorted_distinct_keys_increase(cs: Seq<Candidate>, files: Seq<FileEntry>, root: Seq<char>, cfg: Config)
    requires
        cs.map_values(|c: Candidate| c@).to_multiset() == eligible_candidates(files, root, cfg).to_multiset(),
        is_sorted(cs),
        view_keys(eligible_candidates(files, root, cfg)).no_duplicates(),
    ensures
        forall|a: int, b: int| 0 <= a < b < cs.len() ==> compare_text((#[trigger] cs[a]).key@, (#[trigger] cs[b]).key@) < 0,
{
    let vs = cs.map_values(|c: Candidate| c@);
    let el = eligible_candidates(files, root, cfg);
    lemma_multiset_map(vs, el, |t: (Seq<char>, Seq<char>, u64)| t.0);
    lemma_multiset_no_duplicates(view_keys(vs), view_keys(el));
    assert forall|a: int, b: int| 0 <= a < b < cs.len() implies compare_text((#[trigger] cs[a]).key@, (#[trigger] cs[b]).key@) < 0 by {
        assert(cs[a].order(cs[b]) <= 0);
        assert(view_keys(vs)[a] == cs[a].key@);
        assert(view_keys(vs)[b] == cs[b].key@);
        lemma_compare_text(cs[a].key@, cs[b].key@, cs[b].key@);
    }
}

/// The key an eligible file is given.
pub open spec fn file_key(f: FileEntry, root: Seq<char>, cfg: Config) -> Seq<char> {
    spec_object_key(root, f.path@, cfg.backup.key_prefix@).unwrap()
}

/// `key` is the key of an eligible file among the first `n` of `files`.
pub open spec fn keyed_by_file(files: Seq<FileEntry>, n: int, root: Seq<char>, cfg: Config, key: Seq<char>) -> bool {
    exists|j: int| 0 <= j < n && spec_is_eligible(
        (#[trigger] files[j]).path@,
        cfg.backup.backup_extensions@,
        cfg.backup.skip_extensions@,
    ) && file_key(files[j], root, cfg) == key
}

proof fn lemma_eligible_entries(files: Seq<FileEntry>, root: Seq<char>, cfg: Config)
    ensures
        forall|k: int| 0 <= k < eligible_candidates(files, root, cfg).len() ==> keyed_by_file(
            files,
            files.len() as int,
            root,
            cfg,
            (#[trigger] eligible_candidates(files, root, cfg)[k]).0,
        ),
    decreases files.len(),
{
    if files.len() > 0 {
        let pre = files.drop_last();
        lemma_eligible_entries(pre, root, cfg);
        let el = eligible_candidates(files, root, cfg);
        let prev = eligible_candidates(pre, root, cfg);
        assert forall|k: int| 0 <= k < el.len() implies keyed_by_file(files, files.len() as int, root, cfg, (#[trigger] el[k]).0) by {
            if k < prev.len() {
                assert(el[k] == prev[k]);
                assert(keyed_by_file(pre, pre.len() as int, root, cfg, prev[k].0));
                let j = choose|j: int| 0 <= j < pre.len() && spec_is_eligible(
                    (#[trigger] pre[j]).path@,
                    cfg.backup.backup_extensions@,
                    cfg.backup.skip_extensions@,
                ) && file_key(pre[j], root, cfg) == prev[k].0;
                assert(files[j] == pre[j]);
            } else {
                assert(files[files.len() - 1] == files.last());
            }
        }
    }
}

/// Under a non-empty root, eligible files with pairwise different path components get
/// pairwise different keys.
proof fn lemma_eligible_keys_distinct(files: Seq<FileEntry>, root: Seq<char>, cfg: Config)
    requires
        root.len() > 0,
        forall|i: int| 0 <= i < files.len() ==> file_gatherable(#[trigger] files[i], root, cfg),
        forall|i: int, j: int| 0 <= i < j < files.len() && spec_is_eligible(
            (#[trigger] files[i]).path@,
            cfg.backup.backup_extensions@,
            cfg.backup.skip_extensions@,
        ) && spec_is_eligible((#[trigger] files[j]).path@, cfg.backup.backup_extensions@, cfg.backup.skip_extensions@)
            ==> components(files[i].path@) != components(files[j].path@),
    ensures
        view_keys(eligible_candidates(files, root, cfg)).no_duplicates(),
    decreases files.len(),
{
    if files.len() > 0 {
        let pre = files.drop_last();
        assert forall|i: int| 0 <= i < pre.len() implies file_gatherable(#[trigger] pre[i], root, cfg) by {
            assert(pre[i] == files[i]);
        }
        assert forall|i: int, j: int| 0 <= i < j < pre.len() && spec_is_eligible(
            (#[trigger] pre[i]).path@,
            cfg.backup.backup_extensions@,
            cfg.backup.skip_extensions@,
        ) && spec_is_eligible((#[trigger] pre[j]).path@, cfg.backup.backup_extensions@, cfg.backup.skip_extensions@)
            implies components(pre[i].path@) != components(pre[j].path@) by {
            assert(pre[i] == files[i] && pre[j] == files[j]);
        }
        lemma_eligible_keys_distinct(pre, root, cfg);
        let prev = eligible_candidates(pre, root, cfg);
        let f = files.last();
        let n = files.len() - 1;
        assert(files[n] == f);
        if spec_is_eligible(f.path@, cfg.backup.backup_extensions@, cfg.backup.skip_extensions@) {
            lemma_eligible_entries(pre, root, cfg);
            let el = prev.push((file_key(f, root, cfg), f.path@, f.size.unwrap()));
            assert(eligible_candidates(files, root, cfg) == el);
            let ks = view_keys(el);
            let kp = view_keys(prev);
            assert(ks =~= kp.push(file_key(f, root, cfg)));
            assert forall|a: int, b: int| 0 <= a < ks.len() && 0 <= b < ks.len() && a != b implies ks[a] != ks[b] by {
                if a < kp.len() && b < kp.len() {
                    assert(ks[a] == kp[a] && ks[b] == kp[b]);
                } else {
                    let k = if a < kp.len() { a } else { b };
                    assert(ks[k] == prev[k].0);
                    assert(keyed_by_file(pre, pre.len() as int, root, cfg, prev[k].0));
                    let j = choose|j: int| 0 <= j < pre.len() && spec_is_eligible(
                        (#[trigger] pre[j]).path@,
                        cfg.backup.backup_extensions@,
                        cfg.backup.skip_extensions@,
                    ) && file_key(pre[j], root, cfg) == prev[k].0;
                    assert(files[j] == pre[j]);
                    if prev[k].0 == file_key(f, root, cfg) {
                        assert(file_gatherable(files[j], root, cfg));
                        assert(file_gatherable(files[n], root, cfg));
                        lemma_object_key_injective(root, files[j].path@, f.path@, cfg.backup.key_prefix@);
                    }
                }
            }
        } else {
            assert(eligible_candidates(files, root, cfg) == prev);
        }
    }
}

/// Gathered candidates come out in strictly increasing key order when `photos_root` is not
/// empty and no two eligible files of the walk have the same path components (a walk lists
/// each file once). The other requirements are what `gather_candidates` ensures of a
/// successful result.
pub proof fn lemma_gathered_keys_strictly_increase(cs: Seq<Candidate>, files: Seq<FileEntry>, root: Seq<char>, cfg: Config)
    requires
        root.len() > 0,
        forall|i: int, j: int| 0 <= i < j < files.len() && spec_is_eligible(
            (#[trigger] files[i]).path@,
            cfg.backup.backup_extensions@,
            cfg.backup.skip_extensions@,
        ) && spec_is_eligible((#[trigger] files[j]).path@, cfg.backup.backup_extensions@, cfg.backup.skip_extensions@)
            ==> components(files[i].path@) != components(files[j].path@),
        forall|i: int| 0 <= i < files.len() ==> file_gatherable(#[trigger] files[i], root, cfg),
        cs.map_values(|c: Candidate| c@).to_multiset() == eligible_candidates(files, root, cfg).to_multiset(),
        is_sorted(cs),
    ensures
        forall|a: int, b: int| 0 <= a < b < cs.len() ==> compare_text((#[trigger] cs[a]).key@, (#[trigger] cs[b]).key@) < 0,
{
    lemma_eligible_keys_distinct(files, root, cfg);
    lemma_sorted_distinct_keys_increase(cs, files, root, cfg);
}

/// Upload iff the object is missing or its size differs.
pub open spec fn spec_needs_upload(remote_size: Option<u64>, local_size: u64) -> bool {
    remote_size != Some(local_size)
}

/// The cheap idempotency check: upload iff the object is missing or its size differs.
pub fn needs_upload(remote_size: Option<u64>, local_size: u64) -> (r: bool)
    ensures
        r == spec_needs_upload(remote_size, local_size),
{
    match remote_size {
        Some(s) => s != local_size,
        None => true,
    }
}

/// The candidates that still need uploading, in order, given the remote size reported for
/// each.
pub open spec fn pending_uploads(cs: Seq<(Seq<char>, Seq<char>, u64)>, remote: Seq<Option<u64>>) -> Seq<(Seq<char>, Seq<char>, u64)>
    decreases cs.len(),
{
    if cs.len() == 0 {
        Seq::empty()
    } else {
        let prev = pending_uploads(cs.drop_last(), remote.take(cs.len() - 1));
        if spec_needs_upload(remote[cs.len() - 1], cs.last().2) { prev.push(cs.last()) } else { prev }
    }
}

/// How many candidates are already present with the right size.
pub open spec fn already_present(cs: Seq<(Seq<char>, Seq<char>, u64)>, remote: Seq<Option<u64>>) -> int
    decreases cs.len(),
{
    if cs.len() == 0 {
        0
    } else {
        let prev = already_present(cs.drop_last(), remote.take(cs.len() - 1));
        if spec_needs_upload(remote[cs.len() - 1], cs.last().2) { prev } else { prev + 1 }
    }
}

/// Partition `candidates` into "needs upload" and "already present", given the remote size
/// of each (`remote_sizes[i]` for `candidates[i]`, `None` when the object is missing).
/// `to_upload` keeps the candidates' order.
pub fn plan_uploads(candidates: &[Candidate], remote_sizes: &[Option<u64>]) -> (plan: Plan)
    requires
        remote_sizes@.len() == candidates@.len(),
    ensures
        plan.to_upload@.map_values(|c: Candidate| c@) == pending_uploads(
            candidates@.map_values(|c: Candidate| c@),
            remote_sizes@,
        ),
        plan.skipped == already_present(candidates@.map_values(|c: Candidate| c@), remote_sizes@),
{
    let ghost cs = candidates@.map_values(|c: Candidate| c@);
    let mut to_upload: Vec<Candidate> = Vec::new();
    let mut skipped: usize = 0;
    let mut i: usize = 0;
    while i < candidates.len()
        invariant
            cs == candidates@.map_values(|c: Candidate| c@),
            remote_sizes@.len() == candidates@.len(),
            i <= candidates@.len(),
            skipped <= i,
            to_upload@.map_values(|c: Candidate| c@) == pending_uploads(cs.take(i as int), remote_sizes@.take(i as int)),
            skipped == already_present(cs.take(i as int), remote_sizes@.take(i as int)),
        decreases candidates@.len() - i,
    {
        assert(cs.take(i + 1).drop_last() =~= cs.take(i as int));
        assert(remote_sizes@.take(i + 1).take(i as int) =~= remote_sizes@.take(i as int));
        assert(cs.take(i + 1).last() == candidates@[i as int]@);
        if needs_upload(remote_sizes[i], candidates[i].size) {
            let c = copy_candidate(&candidates[i]);
            let ghost before = to_upload@;
            to_upload.push(c);
            assert(to_upload@.map_values(|c: Candidate| c@) =~= before.map_values(|c: Candidate| c@).push(c@));
        } else {
            skipped = skipped + 1;
        }
        i = i + 1;
    }
    assert(cs.take(cs.len() as int) =~= cs);
    assert(remote_sizes@.take(remote_sizes@.len() as int) =~= remote_sizes@);
    Plan { to_upload, skipped }
}

/// Every candidate is either uploaded or counted as already present.
pub proof fn lemma_plan_partitions(cs: Seq<(Seq<char>, Seq<char>, u64)>, remote: Seq<Option<u64>>)
    requires
        remote.len() == cs.len(),
    ensures
        pending_uploads(cs, remote).len() + already_present(cs, remote) == cs.len(),
    decreases cs.len(),
{
    if cs.len() > 0 {
        lemma_plan_partitions(cs.drop_last(), remote.take(cs.len() - 1));
    }
}

/// When the remote already holds every candidate with its local size, nothing is uploaded
/// and every candidate is counted as present.
pub proof fn lemma_plan_up_to_date(cs: Seq<(Seq<char>, Seq<char>, u64)>, remote: Seq<Option<u64>>)
    requires
        remote.len() == cs.len(),
        forall|i: int| 0 <= i < cs.len() ==> remote[i] == Some(#[trigger] cs[i].2),
    ensures
        pending_uploads(cs, remote).len() == 0,
        already_present(cs, remote) == cs.len(),
    decreases cs.len(),
{
    if cs.len() > 0 {
        let r2 = remote.take(cs.len() - 1);
        assert forall|i: int| 0 <= i < cs.len() - 1 implies r2[i] == Some(#[trigger] cs.drop_last()[i].2) by {
            assert(cs.drop_last()[i] == cs[i]);
        }
        lemma_plan_up_to_date(cs.drop_last(), r2);
        assert(remote[cs.len() - 1] == Some(cs[cs.len() - 1].2));
    }
}

/// The remote size reported for each candidate's key by a store holding `store`.
pub open spec fn head_sizes(cs: Seq<(Seq<char>, Seq<char>, u64)>, store: Map<Seq<char>, u64>) -> Seq<Option<u64>> {
    Seq::new(cs.len(), |i: int| if store.contains_key(cs[i].0) { Some(store[cs[i].0]) } else { None })
}

/// A store after each of `uploaded` has been put under its key with its size.
pub open spec fn after_uploads(store: Map<Seq<char>, u64>, uploaded: Seq<(Seq<char>, Seq<char>, u64)>) -> Map<Seq<char>, u64>
    decreases uploaded.len(),
{
    if uploaded.len() == 0 {
        store
    } else {
        after_uploads(store, uploaded.drop_last()).insert(uploaded.last().0, uploaded.last().2)
    }
}

proof fn lemma_pending_members(cs: Seq<(Seq<char>, Seq<char>, u64)>, remote: Seq<Option<u64>>, i: int)
    requires
        remote.len() == cs.len(),
        0 <= i < cs.len(),
        spec_needs_upload(remote[i], cs[i].2),
    ensures
        pending_uploads(cs, remote).contains(cs[i]),
    decreases cs.len(),
{
    if i < cs.len() - 1 {
        assert(cs.drop_last()[i] == cs[i]);
        assert(remote.take(cs.len() - 1)[i] == remote[i]);
        lemma_pending_members(cs.drop_last(), remote.take(cs.len() - 1), i);
        let prev = pending_uploads(cs.drop_last(), remote.take(cs.len() - 1));
        let j = choose|j: int| 0 <= j < prev.len() && prev[j] == cs[i];
        if spec_needs_upload(remote[cs.len() - 1], cs.last().2) {
            assert(prev.push(cs.last())[j] == cs[i]);
        }
    } else {
        let prev = pending_uploads(cs.drop_last(), remote.take(cs.len() - 1));
        assert(prev.push(cs.last())[prev.len() as int] == cs[i]);
    }
}

proof fn lemma_after_uploads_holds(store: Map<Seq<char>, u64>, uploaded: Seq<(Seq<char>, Seq<char>, u64)>, x: (Seq<char>, Seq<char>, u64))
    requires
        uploaded.contains(x),
        forall|a: int, b: int| 0 <= a < uploaded.len() && 0 <= b < uploaded.len() && (#[trigger] uploaded[a]).0 == (#[trigger] uploaded[b]).0 ==> uploaded[a].2 == uploaded[b].2,
    ensures
        after_uploads(store, uploaded).contains_key(x.0),
        after_uploads(store, uploaded)[x.0] == x.2,
    decreases uploaded.len(),
{
    let last = uploaded.last();
    if last.0 != x.0 {
        let j = choose|j: int| 0 <= j < uploaded.len() && uploaded[j] == x;
        assert(j != uploaded.len() - 1);
        assert(uploaded.drop_last()[j] == x);
        assert forall|a: int, b: int| 0 <= a < uploaded.drop_last().len() && 0 <= b < uploaded.drop_last().len()
            && (#[trigger] uploaded.drop_last()[a]).0 == (#[trigger] uploaded.drop_last()[b]).0 implies uploaded.drop_last()[a].2
            == uploaded.drop_last()[b].2 by {
            assert(uploaded.drop_last()[a] == uploaded[a] && uploaded.drop_last()[b] == uploaded[b]);
        }
        lemma_after_uploads_holds(store, uploaded.drop_last(), x);
    } else {
        let j = choose|j: int| 0 <= j < uploaded.len() && uploaded[j] == x;
        assert(uploaded[uploaded.len() - 1] == last);
    }
}

proof fn lemma_pending_in_candidates(cs: Seq<(Seq<char>, Seq<char>, u64)>, remote: Seq<Option<u64>>, k: int)
    requires
        remote.len() == cs.len(),
        0 <= k < pending_uploads(cs, remote).len(),
    ensures
        cs.contains(pending_uploads(cs, remote)[k]),
    decreases cs.len(),
{
    let prev = pending_uploads(cs.drop_last(), remote.take(cs.len() - 1));
    if k < prev.len() {
        lemma_pending_in_candidates(cs.drop_last(), remote.take(cs.len() - 1), k);
        let j = choose|j: int| 0 <= j < cs.drop_last().len() && cs.drop_last()[j] == prev[k];
        assert(cs[j] == prev[k]);
        if spec_needs_upload(remote[cs.len() - 1], cs.last().2) {
            assert(prev.push(cs.last())[k] == prev[k]);
        }
    } else {
        assert(cs[cs.len() - 1] == cs.last());
    }
}

/// After a backup has put every candidate its plan chose, the store reports each
/// candidate's own size. Candidates that share a key must share a size.
proof fn lemma_after_backup_all_present(cs: Seq<(Seq<char>, Seq<char>, u64)>, store: Map<Seq<char>, u64>)
    requires
        forall|a: int, b: int| 0 <= a < cs.len() && 0 <= b < cs.len() && (#[trigger] cs[a]).0 == (#[trigger] cs[b]).0 ==> cs[a].2 == cs[b].2,
    ensures
        forall|i: int| 0 <= i < cs.len() ==> head_sizes(cs, after_uploads(store, pending_uploads(cs, head_sizes(cs, store))))[i]
            == Some(#[trigger] cs[i].2),
{
    let remote = head_sizes(cs, store);
    let uploaded = pending_uploads(cs, remote);
    let store2 = after_uploads(store, uploaded);
    assert forall|a: int, b: int| 0 <= a < uploaded.len() && 0 <= b < uploaded.len() && (#[trigger] uploaded[a]).0 == (#[trigger] uploaded[b]).0 implies uploaded[a].2 == uploaded[b].2 by {
        lemma_pending_in_candidates(cs, remote, a);
        lemma_pending_in_candidates(cs, remote, b);
    }
    assert forall|i: int| 0 <= i < cs.len() implies head_sizes(cs, store2)[i] == Some(#[trigger] cs[i].2) by {
        if spec_needs_upload(remote[i], cs[i].2) {
            lemma_pending_members(cs, remote, i);
            lemma_after_uploads_holds(store, uploaded, cs[i]);
        } else {
            let key = cs[i].0;
            assert forall|k: int| 0 <= k < uploaded.len() && (#[trigger] uploaded[k]).0 == key implies uploaded[k].2 == store[key] by {
                lemma_pending_in_candidates(cs, remote, k);
                let j = choose|j: int| 0 <= j < cs.len() && cs[j] == uploaded[k];
                assert(cs[j].0 == cs[i].0);
            }
            lemma_after_uploads_keeps(store, uploaded, key, cs);
        }
    }
}

/// Re-running right after a successful backup uploads nothing: once every candidate the
/// plan chose has been put under its key (and the store keeps what it holds), a new plan
/// against the same candidates finds them all present. Candidates that share a key must
/// share a size.
pub proof fn lemma_backup_rerun_uploads_nothing(cs: Seq<(Seq<char>, Seq<char>, u64)>, store: Map<Seq<char>, u64>)
    requires
        forall|a: int, b: int| 0 <= a < cs.len() && 0 <= b < cs.len() && (#[trigger] cs[a]).0 == (#[trigger] cs[b]).0 ==> cs[a].2 == cs[b].2,
    ensures
        ({
            let uploaded = pending_uploads(cs, head_sizes(cs, store));
            let store2 = after_uploads(store, uploaded);
            &&& pending_uploads(cs, head_sizes(cs, store2)).len() == 0
            &&& already_present(cs, head_sizes(cs, store2)) == cs.len()
        }),
{
    lemma_after_backup_all_present(cs, store);
    let store2 = after_uploads(store, pending_uploads(cs, head_sizes(cs, store)));
    lemma_plan_up_to_date(cs, head_sizes(cs, store2));
}

/// When the remote reports every candidate's own size except candidate `j`'s, exactly
/// candidate `j` is uploaded and every other one is counted as present.
pub proof fn lemma_plan_single_change(cs: Seq<(Seq<char>, Seq<char>, u64)>, remote: Seq<Option<u64>>, j: int)
    requires
        remote.len() == cs.len(),
        0 <= j < cs.len(),
        forall|i: int| 0 <= i < cs.len() && i != j ==> remote[i] == Some(#[trigger] cs[i].2),
        remote[j] != Some(cs[j].2),
    ensures
        pending_uploads(cs, remote) == seq![cs[j]],
        already_present(cs, remote) == cs.len() - 1,
    decreases cs.len(),
{
    let n = cs.len();
    let pre = cs.drop_last();
    let rpre = remote.take(n - 1);
    if j == n - 1 {
        assert forall|i: int| 0 <= i < pre.len() implies rpre[i] == Some(#[trigger] pre[i].2) by {
            assert(pre[i] == cs[i]);
        }
        lemma_plan_up_to_date(pre, rpre);
        assert(pending_uploads(pre, rpre) =~= Seq::<(Seq<char>, Seq<char>, u64)>::empty());
        assert(cs.last() == cs[j]);
    } else {
        assert forall|i: int| 0 <= i < pre.len() && i != j implies rpre[i] == Some(#[trigger] pre[i].2) by {
            assert(pre[i] == cs[i]);
        }
        assert(pre[j] == cs[j]);
        lemma_plan_single_change(pre, rpre, j);
        assert(remote[n - 1] == Some(cs[n - 1].2));
        assert(cs.last() == cs[n - 1]);
    }
}

/// After a successful backup, if the remote size under one candidate's key changes, the
/// next plan uploads exactly that candidate. Candidates must have distinct keys.
pub proof fn lemma_backup_one_changed_size(cs: Seq<(Seq<char>, Seq<char>, u64)>, store: Map<Seq<char>, u64>, j: int, size: u64)
    requires
        forall|a: int, b: int| 0 <= a < cs.len() && 0 <= b < cs.len() && a != b ==> (#[trigger] cs[a]).0 != (#[trigger] cs[b]).0,
        0 <= j < cs.len(),
        size != cs[j].2,
    ensures
        ({
            let store2 = after_uploads(store, pending_uploads(cs, head_sizes(cs, store)));
            let store3 = store2.insert(cs[j].0, size);
            &&& pending_uploads(cs, head_sizes(cs, store3)) == seq![cs[j]]
            &&& already_present(cs, head_sizes(cs, store3)) == cs.len() - 1
        }),
{
    lemma_after_backup_all_present(cs, store);
    let store2 = after_uploads(store, pending_uploads(cs, head_sizes(cs, store)));
    let store3 = store2.insert(cs[j].0, size);
    let remote = head_sizes(cs, store3);
    assert forall|i: int| 0 <= i < cs.len() && i != j implies remote[i] == Some(#[trigger] cs[i].2) by {
        assert(cs[i].0 != cs[j].0);
        assert(head_sizes(cs, store2)[i] == Some(cs[i].2));
    }
    assert(remote[j] == Some(size));
    lemma_plan_single_change(cs, remote, j);
}

proof fn lemma_after_uploads_keeps(store: Map<Seq<char>, u64>, uploaded: Seq<(Seq<char>, Seq<char>, u64)>, key: Seq<char>, cs: Seq<(Seq<char>, Seq<char>, u64)>)
    requires
        store.contains_key(key),
        forall|k: int| 0 <= k < uploaded.len() && (#[trigger] uploaded[k]).0 == key ==> uploaded[k].2 == store[key],
    ensures
        after_uploads(store, uploaded).contains_key(key),
        after_uploads(store, uploaded)[key] == store[key],
    decreases uploaded.len(),
{
    if uploaded.len() > 0 {
        assert forall|k: int| 0 <= k < uploaded.drop_last().len() && (#[trigger] uploaded.drop_last()[k]).0 == key implies uploaded.drop_last()[k].2 == store[key] by {
            assert(uploaded.drop_last()[k] == uploaded[k]);
        }
        lemma_after_uploads_keeps(store, uploaded.drop_last(), key, cs);
        if uploaded.last().0 == key {
            assert(uploaded[uploaded.len() - 1] == uploaded.last());
        }
    }
}

/// Extension group of a path: its extension lowercased, or `(no ext)`.
pub open spec fn ext_key(path: Seq<char>) -> Seq<char> {
    match extension(path) {
        Some(e) => lower_seq(e),
        None => NO_EXTENSION@,
    }
}

/// Group label of files without an extension.
pub const NO_EXTENSION: &'static str = "(no ext)";

/// Number of `items` in extension group `e`.
pub open spec fn ext_count(items: Seq<(Seq<char>, Seq<char>, u64)>, e: Seq<char>) -> int
    decreases items.len(),
{
    if items.len() == 0 {
        0
    } else {
        ext_count(items.drop_last(), e) + if ext_key(items.last().1) == e { 1int } else { 0int }
    }
}

/// Total size of the `items` in extension group `e`.
pub open spec fn ext_bytes(items: Seq<(Seq<char>, Seq<char>, u64)>, e: Seq<char>) -> int
    decreases items.len(),
{
    if items.len() == 0 {
        0
    } else {
        ext_bytes(items.drop_last(), e) + if ext_key(items.last().1) == e { items.last().2 as int } else { 0int }
    }
}

/// Order of breakdown rows: most bytes first, ties by extension.
pub open spec fn row_order(a: (Seq<char>, usize, u64), b: (Seq<char>, usize, u64)) -> int {
    if a.2 > b.2 { -1 } else if a.2 < b.2 { 1 } else { compare_text(a.0, b.0) }
}

impl Ordered for (String, usize, u64) {
    open spec fn order(self, other: Self) -> int {
        row_order((self.0@, self.1, self.2), (other.0@, other.1, other.2))
    }

    fn compare(&self, other: &Self) -> (r: i8) {
        if self.2 > other.2 {
            -1
        } else if self.2 < other.2 {
            1
        } else {
            compare_strs(self.0.as_str(), other.0.as_str())
        }
    }

    proof fn lemma_order(a: Self, b: Self, c: Self) {
        lemma_compare_text(a.0@, b.0@, c.0@);
    }
}

proof fn lemma_ext_count_bounds(items: Seq<(Seq<char>, Seq<char>, u64)>, e: Seq<char>)
    ensures
        0 <= ext_count(items, e) <= items.len(),
        0 <= ext_bytes(items, e) <= total_size(items),
        ext_count(items, e) > 0 ==> exists|j: int| 0 <= j < items.len() && ext_key(#[trigger] items[j].1) == e,
        ext_count(items, e) == 0 ==> ext_bytes(items, e) == 0,
    decreases items.len(),
{
    if items.len() > 0 {
        lemma_ext_count_bounds(items.drop_last(), e);
        if ext_count(items.drop_last(), e) > 0 {
            let j = choose|j: int| 0 <= j < items.drop_last().len() && ext_key(#[trigger] items.drop_last()[j].1) == e;
            assert(items[j] == items.drop_last()[j]);
        }
        if ext_key(items.last().1) == e {
            assert(items[items.len() - 1] == items.last());
        }
    }
}

/// The extension key of a path.
fn ext_key_of(path: &str) -> (r: String)
    ensures
        r@ == ext_key(path@),
{
    match path_extension(path) {
        Some(e) => crate::text::lowercase_ascii(e.as_str()),
        None => to_owned_string(NO_EXTENSION),
    }
}

/// Group pending uploads by lowercased extension (`(no ext)` for none): one row per group
/// with its file count and total bytes, sorted largest-bytes-first, ties by extension.
#[verifier::spinoff_prover]
pub fn ext_breakdown(items: &[Candidate]) -> (rows: Vec<(String, usize, u64)>)
    requires
        total_size(items@.map_values(|c: Candidate| c@)) <= u64::MAX,
    ensures
        forall|k: int| 0 <= k < rows@.len() ==> {
            &&& (#[trigger] rows@[k]).1 as int == ext_count(items@.map_values(|c: Candidate| c@), rows@[k].0@)
            &&& rows@[k].2 as int == ext_bytes(items@.map_values(|c: Candidate| c@), rows@[k].0@)
            &&& rows@[k].1 > 0
        },
        forall|i: int| 0 <= i < items@.len() ==> exists|k: int| 0 <= k < rows@.len() && (#[trigger] rows@[k]).0@ == ext_key(
            (#[trigger] items@[i]).path@,
        ),
        forall|k: int, l: int| 0 <= k < l < rows@.len() ==> row_order(
            ((#[trigger] rows@[k]).0@, rows@[k].1, rows@[k].2),
            ((#[trigger] rows@[l]).0@, rows@[l].1, rows@[l].2),
        ) < 0,
{
    let ghost iv = items@.map_values(|c: Candidate| c@);
    let mut groups: Vec<(String, usize, u64)> = Vec::new();
    let mut i: usize = 0;
    while i < items.len()
        invariant
            iv == items@.map_values(|c: Candidate| c@),
            total_size(iv) <= u64::MAX,
            i <= items@.len(),
            forall|k: int| 0 <= k < groups@.len() ==> {
                &&& (#[trigger] groups@[k]).1 as int == ext_count(iv.take(i as int), groups@[k].0@)
                &&& groups@[k].2 as int == ext_bytes(iv.take(i as int), groups@[k].0@)
                &&& groups@[k].1 > 0
            },
            forall|j: int| 0 <= j < i ==> exists|k: int| 0 <= k < groups@.len() && (#[trigger] groups@[k]).0@ == ext_key(
                (#[trigger] iv[j]).1,
            ),
            forall|k: int, l: int| 0 <= k < l < groups@.len() ==> (#[trigger] groups@[k]).0@ != (#[trigger] groups@[l]).0@,
        decreases items@.len() - i,
    {
        let key = ext_key_of(items[i].path.as_str());
        let size = items[i].size;
        let ghost pre = iv.take(i as int);
        let ghost post = iv.take(i + 1);
        proof {
            assert(post.drop_last() =~= pre);
            assert(post.last() == items@[i as int]@);
            lemma_ext_count_bounds(post, key@);
            lemma_total_size_prefix(iv, i + 1);
        }
        let mut idx: usize = 0;
        while idx < groups.len() && !str_eq(groups[idx].0.as_str(), key.as_str())
            invariant
                idx <= groups@.len(),
                forall|k: int| 0 <= k < idx ==> (#[trigger] groups@[k]).0@ != key@,
            decreases groups@.len() - idx,
        {
            idx = idx + 1;
        }
        let ghost old_groups = groups@;
        if idx < groups.len() {
            let count = groups[idx].1;
            let bytes = groups[idx].2;
            proof {
                lemma_ext_count_bounds(post, key@);
                assert(ext_count(post, key@) == ext_count(pre, key@) + 1);
                assert(ext_bytes(post, key@) == ext_bytes(pre, key@) + size);
            }
            groups.set(idx, (key, count + 1, bytes + size));
        } else {
            proof {
                if ext_count(pre, key@) > 0 {
                    lemma_ext_count_bounds(pre, key@);
                    let j = choose|j: int| 0 <= j < pre.len() && ext_key(#[trigger] pre[j].1) == key@;
                    assert(iv[j] == pre[j]);
                    let k = choose|k: int| 0 <= k < groups@.len() && (#[trigger] groups@[k]).0@ == ext_key(iv[j].1);
                    assert(groups@[k].0@ != key@);
                }
            }
            groups.push((key, 1, size));
        }
        proof {
            assert forall|k: int| 0 <= k < groups@.len() implies {
                &&& (#[trigger] groups@[k]).1 as int == ext_count(post, groups@[k].0@)
                &&& groups@[k].2 as int == ext_bytes(post, groups@[k].0@)
                &&& groups@[k].1 > 0
            } by {
                let e = groups@[k].0@;
                assert(ext_key(post.last().1) == key@);
                assert(ext_count(post, e) == ext_count(pre, e) + if ext_key(post.last().1) == e { 1int } else { 0int });
                assert(ext_bytes(post, e) == ext_bytes(pre, e) + if ext_key(post.last().1) == e { post.last().2 as int } else { 0int });
                assert(post.last().2 == size);
                if k < old_groups.len() && k != idx {
                    assert(groups@[k] == old_groups[k]);
                    assert(old_groups[k].0@ != key@);
                } else if k == idx && idx < old_groups.len() {
                    assert(old_groups[k].0@ == key@);
                } else {
                    lemma_ext_count_bounds(pre, key@);
                }
            }
            assert forall|j: int| 0 <= j < i + 1 implies exists|k: int| 0 <= k < groups@.len() && (#[trigger] groups@[k]).0@ == ext_key(
                (#[trigger] iv[j]).1,
            ) by {
                if j < i {
                    let k = choose|k: int| 0 <= k < old_groups.len() && (#[trigger] old_groups[k]).0@ == ext_key(iv[j].1);
                    if k == idx {
                        assert(groups@[k].0@ == key@);
                    } else {
                        assert(groups@[k] == old_groups[k]);
                    }
                } else {
                    assert(groups@[idx as int].0@ == key@);
                }
            }
            assert forall|k: int, l: int| 0 <= k < l < groups@.len() implies (#[trigger] groups@[k]).0@ != (#[trigger] groups@[l]).0@ by {
                if k < old_groups.len() && k != idx {
                    assert(groups@[k] == old_groups[k]);
                }
                if l < old_groups.len() && l != idx {
                    assert(groups@[l] == old_groups[l]);
                }
            }
        }
        i = i + 1;
    }
    assert(iv.take(iv.len() as int) =~= iv);
    proof {
        assert(groups@.no_duplicates()) by {
            assert forall|k: int, l: int| 0 <= k < groups@.len() && 0 <= l < groups@.len() && k != l implies groups@[k] != groups@[l] by {
                if k < l {
                    assert(groups@[k].0@ != groups@[l].0@);
                } else {
                    assert(groups@[l].0@ != groups@[k].0@);
                }
            }
        }
    }
    let rows = sort_ordered(groups);
    proof {
        crate::order::lemma_multiset_no_duplicates(rows@, groups@);
        assert forall|k: int| 0 <= k < rows@.len() implies groups@.contains(#[trigger] rows@[k]) by {
            assert(rows@.contains(rows@[k]));
            crate::order::lemma_multiset_contains(rows@, groups@, rows@[k]);
        }
        assert forall|i: int| 0 <= i < items@.len() implies exists|k: int| 0 <= k < rows@.len() && (#[trigger] rows@[k]).0@ == ext_key(
            (#[trigger] items@[i]).path@,
        ) by {
            assert(iv[i] == items@[i]@);
            let g = choose|g: int| 0 <= g < groups@.len() && (#[trigger] groups@[g]).0@ == ext_key(iv[i].1);
            assert(groups@.contains(groups@[g]));
            crate::order::lemma_multiset_contains(rows@, groups@, groups@[g]);
            let k = choose|k: int| 0 <= k < rows@.len() && rows@[k] == groups@[g];
            assert(rows@[k].0@ == ext_key(items@[i].path@));
        }
        assert forall|k: int, l: int| 0 <= k < l < rows@.len() implies row_order(
            ((#[trigger] rows@[k]).0@, rows@[k].1, rows@[k].2),
            ((#[trigger] rows@[l]).0@, rows@[l].1, rows@[l].2),
        ) < 0 by {
            let a = choose|a: int| 0 <= a < groups@.len() && groups@[a] == rows@[k];
            let b = choose|b: int| 0 <= b < groups@.len() && groups@[b] == rows@[l];
            assert(rows@[k] != rows@[l]);
            assert(a != b);
            if a < b {
                assert(groups@[a].0@ != groups@[b].0@);
            } else {
                assert(groups@[b].0@ != groups@[a].0@);
            }
            lemma_compare_text(rows@[k].0@, rows@[l].0@, rows@[l].0@);
            assert(rows@[k].order(rows@[l]) <= 0);
        }
    }
    rows
}

/// What `backup` does once the plan is known.
#[derive(Debug, Clone, Copy, PartialEq, Eq, Structural)]
pub enum RunStep {
    /// Report what would be uploaded and stop (`--dry-run`).
    ReportDryRun,
    /// Everything is already present: report that and stop.
    ReportUpToDate,
    /// Ask for confirmation, then upload if the answer is yes.
    Confirm,
    /// Upload the pending files.
    Upload,
}

/// The step after planning: a dry run only reports; a plan with nothing pending reports
/// that all is present; otherwise the upload starts, after a confirmation when the
/// terminal is interactive and `--yes` was not given.
pub fn step_after_plan(plan: &Plan, dry_run: bool, yes: bool, interactive: bool) -> (s: RunStep)
    ensures
        s == (if dry_run {
            RunStep::ReportDryRun
        } else if plan.to_upload@.len() == 0 {
            RunStep::ReportUpToDate
        } else if !yes && interactive {
            RunStep::Confirm
        } else {
            RunStep::Upload
        }),
{
    if dry_run {
        RunStep::ReportDryRun
    } else if plan.to_upload.len() == 0 {
        RunStep::ReportUpToDate
    } else if !yes && interactive {
        RunStep::Confirm
    } else {
        RunStep::Upload
    }
}

/// The keys of `cs`, in order.
pub open spec fn keys_of(cs: Seq<Candidate>) -> Seq<Seq<char>> {
    cs.map_values(|c: Candidate| c.key@)
}

/// The views of a list of strings.
pub open spec fn string_views(v: Seq<String>) -> Seq<Seq<char>> {
    v.map_values(|k: String| k@)
}

/// The object keys of `items`, in order.
fn upload_keys(items: &[Candidate]) -> (keys: Vec<String>)
    ensures
        string_views(keys@) == keys_of(items@),
{
    let mut keys: Vec<String> = Vec::new();
    let mut i: usize = 0;
    while i < items.len()
        invariant
            i <= items@.len(),
            string_views(keys@) == keys_of(items@.take(i as int)),
        decreases items@.len() - i,
    {
        let k = items[i].key.clone();
        let ghost before = keys@;
        keys.push(k);
        assert(string_views(keys@) =~= string_views(before).push(items@[i as int].key@));
        assert(items@.take(i + 1) =~= items@.take(i as int).push(items@[i as int]));
        assert(keys_of(items@.take(i + 1)) =~= keys_of(items@.take(i as int)).push(items@[i as int].key@));
        i = i + 1;
    }
    assert(items@.take(items@.len() as int) =~= items@);
    keys
}

/// The figures a `backup` run reports at its end.
#[derive(Debug)]
pub struct BackupReport {
    pub dry_run: bool,
    pub cancelled: bool,
    /// Files uploaded by this run.
    pub uploaded: usize,
    /// Files already present remotely.
    pub skipped: usize,
    pub bytes_uploaded: u64,
    /// Files still to upload.
    pub pending: usize,
    pub pending_bytes: u64,
    /// Keys of the files uploaded (or, for a dry run, to upload).
    pub keys: Vec<String>,
}

/// The total size of the files a plan still has to upload.
pub open spec fn plan_bytes(plan: Plan) -> int {
    total_size(plan.to_upload@.map_values(|c: Candidate| c@))
}

impl BackupReport {
    /// A dry run: nothing uploaded, the whole plan pending.
    pub fn for_dry_run(plan: &Plan) -> (r: BackupReport)
        requires
            plan_bytes(*plan) <= u64::MAX,
        ensures
            r.dry_run && !r.cancelled,
            r.uploaded == 0 && r.bytes_uploaded == 0,
            r.skipped == plan.skipped,
            r.pending == plan.to_upload@.len(),
            r.pending_bytes as int == plan_bytes(*plan),
            string_views(r.keys@) == keys_of(plan.to_upload@),
    {
        BackupReport {
            dry_run: true,
            cancelled: false,
            uploaded: 0,
            skipped: plan.skipped,
            bytes_uploaded: 0,
            pending: plan.to_upload.len(),
            pending_bytes: plan.pending_bytes(),
            keys: upload_keys(&plan.to_upload),
        }
    }

    /// A real run that found everything already present.
    pub fn for_up_to_date(plan: &Plan) -> (r: BackupReport)
        ensures
            !r.dry_run && !r.cancelled,
            r.uploaded == 0 && r.bytes_uploaded == 0,
            r.skipped == plan.skipped,
            r.pending == 0 && r.pending_bytes == 0,
            r.keys@.len() == 0,
    {
        BackupReport {
            dry_run: false,
            cancelled: false,
            uploaded: 0,
            skipped: plan.skipped,
            bytes_uploaded: 0,
            pending: 0,
            pending_bytes: 0,
            keys: Vec::new(),
        }
    }

    /// An upload stopped by the user after `uploaded` files (`bytes_uploaded` bytes): the
    /// rest of the plan stays pending.
    pub fn for_cancelled(plan: &Plan, uploaded: usize, bytes_uploaded: u64) -> (r: BackupReport)
        requires
            plan_bytes(*plan) <= u64::MAX,
            uploaded <= plan.to_upload@.len(),
        ensures
            !r.dry_run && r.cancelled,
            r.uploaded == uploaded && r.bytes_uploaded == bytes_uploaded,
            r.skipped == plan.skipped,
            r.pending == plan.to_upload@.len() - uploaded,
            r.pending_bytes as int == (if bytes_uploaded <= plan_bytes(*plan) { plan_bytes(*plan) - bytes_uploaded } else { 0 }),
            r.keys@.len() == 0,
    {
        let total = plan.pending_bytes();
        BackupReport {
            dry_run: false,
            cancelled: true,
            uploaded,
            skipped: plan.skipped,
            bytes_uploaded,
            pending: plan.to_upload.len() - uploaded,
            pending_bytes: if bytes_uploaded <= total { total - bytes_uploaded } else { 0 },
            keys: Vec::new(),
        }
    }

    /// A finished upload of the whole plan.
    pub fn for_finished(plan: &Plan, uploaded: usize, bytes_uploaded: u64) -> (r: BackupReport)
        ensures
            !r.dry_run && !r.cancelled,
            r.uploaded == uploaded && r.bytes_uploaded == bytes_uploaded,
            r.skipped == plan.skipped,
            r.pending == 0 && r.pending_bytes == 0,
            string_views(r.keys@) == keys_of(plan.to_upload@),
    {
        BackupReport {
            dry_run: false,
            cancelled: false,
            uploaded,
            skipped: plan.skipped,
            bytes_uploaded,
            pending: 0,
            pending_bytes: 0,
            keys: upload_keys(&plan.to_upload),
        }
    }
}

} // verus!
