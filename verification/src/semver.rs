//! Versions: ordered lists of numeric components with a preserved textual
//! form. Ordering is component-wise, reading missing components as zero, so
//! `1.2` and `1.2.0` denote the same point in the order.

use vstd::prelude::*;

verus! {

/// A package version.
#[derive(Debug)]
pub struct Version {
    pub components: Vec<u64>,
    pub raw: String,
}

/// A string is not a version: it has a character other than a decimal digit
/// or `.`, an empty dot-separated chunk, or a component too large to hold.
#[derive(Clone, Copy, PartialEq, Eq, Structural, Debug)]
pub struct VersionParseError;

/// The component at position `i`; positions past the end read as zero.
pub open spec fn comp_at(s: Seq<u64>, i: int) -> u64 {
    if 0 <= i < s.len() {
        s[i]
    } else {
        0u64
    }
}

/// Two component lists denote the same version.
pub open spec fn ver_eq(a: Seq<u64>, b: Seq<u64>) -> bool {
    forall|i: int| #![trigger comp_at(a, i)] #![trigger comp_at(b, i)] comp_at(a, i) == comp_at(b, i)
}

/// `a` denotes a strictly smaller version than `b`: at the first position
/// where they differ, `a`'s component is smaller.
pub open spec fn ver_lt(a: Seq<u64>, b: Seq<u64>) -> bool {
    exists|i: int|
        0 <= i && #[trigger] comp_at(a, i) < comp_at(b, i) && (forall|j: int|
            0 <= j < i ==> comp_at(a, j) == comp_at(b, j))
}

/// `a` denotes a version no larger than `b`.
pub open spec fn ver_le(a: Seq<u64>, b: Seq<u64>) -> bool {
    ver_lt(a, b) || ver_eq(a, b)
}

proof fn lemma_trichotomy_from(a: Seq<u64>, b: Seq<u64>, k: int)
    requires
        0 <= k,
        forall|j: int| 0 <= j < k ==> comp_at(a, j) == comp_at(b, j),
    ensures
        ver_eq(a, b) || ver_lt(a, b) || ver_lt(b, a),
    decreases a.len() + b.len() - k,
{
    if k >= a.len() && k >= b.len() {
        assert forall|i: int| comp_at(a, i) == comp_at(b, i) by {
            if 0 <= i < k {
            } else {
                assert(comp_at(a, i) == 0 && comp_at(b, i) == 0);
            }
        }
        assert(ver_eq(a, b));
    } else if comp_at(a, k) < comp_at(b, k) {
        assert(ver_lt(a, b));
    } else if comp_at(b, k) < comp_at(a, k) {
        assert(ver_lt(b, a));
    } else {
        lemma_trichotomy_from(a, b, k + 1);
    }
}

/// Any two versions are equal or strictly ordered one way.
pub proof fn lemma_ver_trichotomy(a: Seq<u64>, b: Seq<u64>)
    ensures
        ver_eq(a, b) || ver_lt(a, b) || ver_lt(b, a),
{
    lemma_trichotomy_from(a, b, 0);
}

/// The strict order is asymmetric.
pub proof fn lemma_ver_lt_asym(a: Seq<u64>, b: Seq<u64>)
    requires
        ver_lt(a, b),
    ensures
        !ver_lt(b, a),
        !ver_eq(a, b),
{
    let i = choose|i: int|
        0 <= i && #[trigger] comp_at(a, i) < comp_at(b, i) && (forall|j: int|
            0 <= j < i ==> comp_at(a, j) == comp_at(b, j));
    assert(comp_at(a, i) < comp_at(b, i));
    if ver_lt(b, a) {
        let k = choose|k: int|
            0 <= k && #[trigger] comp_at(b, k) < comp_at(a, k) && (forall|j: int|
                0 <= j < k ==> comp_at(b, j) == comp_at(a, j));
        if i < k {
            assert(comp_at(b, i) == comp_at(a, i));
        } else if k < i {
            assert(comp_at(a, k) == comp_at(b, k));
        }
    }
}

/// The strict order is transitive.
pub proof fn lemma_ver_lt_trans(a: Seq<u64>, b: Seq<u64>, c: Seq<u64>)
    requires
        ver_lt(a, b),
        ver_lt(b, c),
    ensures
        ver_lt(a, c),
{
    let i = choose|i: int|
        0 <= i && #[trigger] comp_at(a, i) < comp_at(b, i) && (forall|j: int|
            0 <= j < i ==> comp_at(a, j) == comp_at(b, j));
    let k = choose|k: int|
        0 <= k && #[trigger] comp_at(b, k) < comp_at(c, k) && (forall|j: int|
            0 <= j < k ==> comp_at(b, j) == comp_at(c, j));
    if i < k {
        assert(comp_at(b, i) == comp_at(c, i));
        assert(comp_at(a, i) < comp_at(c, i));
        assert(forall|j: int| 0 <= j < i ==> comp_at(a, j) == comp_at(c, j));
        assert(ver_lt(a, c));
    } else {
        assert(comp_at(a, k) < comp_at(c, k));
        assert(forall|j: int| 0 <= j < k ==> comp_at(a, j) == comp_at(c, j));
        assert(ver_lt(a, c));
    }
}

/// Equal versions are below the same versions.
pub proof fn lemma_ver_eq_lt(a: Seq<u64>, b: Seq<u64>, c: Seq<u64>)
    requires
        ver_eq(a, b),
        ver_lt(b, c),
    ensures
        ver_lt(a, c),
{
    let k = choose|k: int|
        0 <= k && #[trigger] comp_at(b, k) < comp_at(c, k) && (forall|j: int|
            0 <= j < k ==> comp_at(b, j) == comp_at(c, j));
    assert(comp_at(a, k) < comp_at(c, k));
    assert(forall|j: int| 0 <= j < k ==> comp_at(a, j) == comp_at(c, j));
    assert(ver_lt(a, c));
}

/// Versions below equal versions are below both.
pub proof fn lemma_ver_lt_eq(a: Seq<u64>, b: Seq<u64>, c: Seq<u64>)
    requires
        ver_lt(a, b),
        ver_eq(b, c),
    ensures
        ver_lt(a, c),
{
    let k = choose|k: int|
        0 <= k && #[trigger] comp_at(a, k) < comp_at(b, k) && (forall|j: int|
            0 <= j < k ==> comp_at(a, j) == comp_at(b, j));
    assert(comp_at(a, k) < comp_at(c, k));
    assert(forall|j: int| 0 <= j < k ==> comp_at(a, j) == comp_at(c, j));
    assert(ver_lt(a, c));
}

/// `ver_le` is transitive.
pub proof fn lemma_ver_le_trans(a: Seq<u64>, b: Seq<u64>, c: Seq<u64>)
    requires
        ver_le(a, b),
        ver_le(b, c),
    ensures
        ver_le(a, c),
{
    if ver_lt(a, b) && ver_lt(b, c) {
        lemma_ver_lt_trans(a, b, c);
    } else if ver_lt(a, b) && ver_eq(b, c) {
        lemma_ver_lt_eq(a, b, c);
    } else if ver_eq(a, b) && ver_lt(b, c) {
        lemma_ver_eq_lt(a, b, c);
    } else {
        assert(ver_eq(a, c));
    }
}

/// Compare component lists; `-1`, `0`, `1` for below, equal, above.
fn cmp_comps(a: &Vec<u64>, b: &Vec<u64>) -> (r: i8)
    ensures
        r == -1 || r == 0 || r == 1,
        (r == -1) == ver_lt(a@, b@),
        (r == 0) == ver_eq(a@, b@),
        (r == 1) == ver_lt(b@, a@),
{
    let n = if a.len() > b.len() {
        a.len()
    } else {
        b.len()
    };
    let mut i: usize = 0;
    while i < n
        invariant
            i <= n,
            n == if a@.len() > b@.len() {
                a@.len()
            } else {
                b@.len()
            },
            forall|j: int| 0 <= j < i ==> comp_at(a@, j) == comp_at(b@, j),
        decreases n - i,
    {
        let x = if i < a.len() {
            a[i]
        } else {
            0
        };
        let y = if i < b.len() {
            b[i]
        } else {
            0
        };
        if x < y {
            proof {
                assert(comp_at(a@, i as int) < comp_at(b@, i as int));
                assert(ver_lt(a@, b@));
                lemma_ver_lt_asym(a@, b@);
            }
            return -1;
        }
        if y < x {
            proof {
                assert(comp_at(b@, i as int) < comp_at(a@, i as int));
                assert(ver_lt(b@, a@));
                lemma_ver_lt_asym(b@, a@);
            }
            return 1;
        }
        i += 1;
    }
    proof {
        assert forall|k: int| comp_at(a@, k) == comp_at(b@, k) by {
            if 0 <= k < n {
            } else {
                assert(comp_at(a@, k) == 0 && comp_at(b@, k) == 0);
            }
        }
        assert(ver_eq(a@, b@));
        if ver_lt(a@, b@) {
            lemma_ver_lt_asym(a@, b@);
        }
        if ver_lt(b@, a@) {
            lemma_ver_lt_asym(b@, a@);
        }
    }
    0
}

impl Version {
    /// True when both denote the same version.
    pub fn eq_ver(&self, other: &Version) -> (r: bool)
        ensures
            r == ver_eq(self.components@, other.components@),
    {
        cmp_comps(&self.components, &other.components) == 0
    }

    /// True when `self` denotes a strictly smaller version than `other`.
    pub fn lt_ver(&self, other: &Version) -> (r: bool)
        ensures
            r == ver_lt(self.components@, other.components@),
    {
        cmp_comps(&self.components, &other.components) == -1
    }

    /// True when `self` denotes a version no larger than `other`.
    pub fn le_ver(&self, other: &Version) -> (r: bool)
        ensures
            r == ver_le(self.components@, other.components@),
    {
        cmp_comps(&self.components, &other.components) != 1
    }

    /// The textual form the version was parsed from.
    pub fn to_string(&self) -> (r: String)
        ensures
            r@ == self.raw@,
    {
        self.raw.clone()
    }
}

/// A decimal digit.
pub open spec fn is_digit_char(c: char) -> bool {
    '0' <= c && c <= '9'
}

/// The numeric value of a digit character.
pub open spec fn digit_val(c: char) -> int {
    c as int - '0' as int
}

/// Every character is a decimal digit.
pub open spec fn all_digits(s: Seq<char>) -> bool {
    forall|i: int| 0 <= i < s.len() ==> is_digit_char(#[trigger] s[i])
}

/// The number a digit string denotes.
pub open spec fn digits_value(s: Seq<char>) -> int
    decreases s.len(),
{
    if s.len() == 0 {
        0
    } else {
        digits_value(s.drop_last()) * 10 + digit_val(s.last())
    }
}

/// The dot-separated chunks of `s`, empty chunks preserved; the empty string
/// has one empty chunk.
pub open spec fn dot_chunks(s: Seq<char>) -> Seq<Seq<char>>
    decreases s.len(),
{
    if s.len() == 0 {
        seq![Seq::<char>::empty()]
    } else if s.last() == '.' {
        dot_chunks(s.drop_last()).push(Seq::<char>::empty())
    } else {
        let r = dot_chunks(s.drop_last());
        r.update(r.len() - 1, r.last().push(s.last()))
    }
}

/// A chunk denotes one version component: nonempty, all digits, in range.
pub open spec fn chunk_ok(s: Seq<char>) -> bool {
    s.len() > 0 && all_digits(s) && digits_value(s) <= u64::MAX
}

/// The string is a well-formed version: every dot-separated chunk denotes a
/// component.
pub open spec fn is_version_str(s: Seq<char>) -> bool {
    forall|i: int| 0 <= i < dot_chunks(s).len() ==> chunk_ok(#[trigger] dot_chunks(s)[i])
}

/// The components a well-formed version string denotes.
pub open spec fn version_comps_of(s: Seq<char>) -> Seq<u64> {
    dot_chunks(s).map_values(|c: Seq<char>| digits_value(c) as u64)
}

proof fn lemma_dot_chunks_nonempty(s: Seq<char>)
    ensures
        dot_chunks(s).len() >= 1,
    decreases s.len(),
{
    if s.len() > 0 {
        lemma_dot_chunks_nonempty(s.drop_last());
    }
}

proof fn lemma_digits_value_nonneg(s: Seq<char>)
    requires
        all_digits(s),
    ensures
        digits_value(s) >= 0,
    decreases s.len(),
{
    if s.len() > 0 {
        assert(all_digits(s.drop_last()));
        lemma_digits_value_nonneg(s.drop_last());
        assert(is_digit_char(s.last()));
    }
}

/// Extending a digit string cannot shrink its value.
pub proof fn lemma_digits_value_prefix_pub(s: Seq<char>, m: int)
    requires
        all_digits(s),
        0 <= m <= s.len(),
    ensures
        digits_value(s.take(m)) <= digits_value(s),
{
    lemma_digits_value_prefix(s, m);
}

/// Extending a digit string cannot shrink its value.
proof fn lemma_digits_value_prefix(s: Seq<char>, m: int)
    requires
        all_digits(s),
        0 <= m <= s.len(),
    ensures
        digits_value(s.take(m)) <= digits_value(s),
    decreases s.len() - m,
{
    if m < s.len() {
        let t = s.take(m + 1);
        assert(t.drop_last() =~= s.take(m));
        assert(all_digits(s.take(m)));
        lemma_digits_value_nonneg(s.take(m));
        assert(is_digit_char(t.last()));
        assert(digits_value(t) == digits_value(s.take(m)) * 10 + digit_val(t.last()));
        lemma_digits_value_prefix(s, m + 1);
    } else {
        assert(s.take(m) =~= s);
    }
}

/// The chunks of a prefix of `s`: all but the last are chunks of `s` exactly,
/// and the last is a prefix of the corresponding chunk of `s`.
proof fn lemma_dot_chunks_prefix(s: Seq<char>, i: int)
    requires
        0 <= i <= s.len(),
    ensures
        dot_chunks(s.take(i)).len() <= dot_chunks(s).len(),
        forall|j: int|
            0 <= j < dot_chunks(s.take(i)).len() - 1 ==> #[trigger] dot_chunks(s)[j] == dot_chunks(
                s.take(i),
            )[j],
        dot_chunks(s.take(i)).last().len() <= dot_chunks(s)[dot_chunks(s.take(i)).len() - 1].len(),
        dot_chunks(s)[dot_chunks(s.take(i)).len() - 1].take(
            dot_chunks(s.take(i)).last().len() as int,
        ) == dot_chunks(s.take(i)).last(),
    decreases s.len() - i,
{
    lemma_dot_chunks_nonempty(s.take(i));
    if i == s.len() {
        assert(s.take(i) =~= s);
        assert(dot_chunks(s).last().take(dot_chunks(s).last().len() as int) =~= dot_chunks(
            s,
        ).last());
    } else {
        let p = dot_chunks(s.take(i));
        let q = dot_chunks(s.take(i + 1));
        assert(s.take(i + 1).drop_last() =~= s.take(i));
        assert(s.take(i + 1).last() == s[i]);
        lemma_dot_chunks_prefix(s, i + 1);
        if s[i] == '.' {
            assert(q =~= p.push(Seq::<char>::empty()));
            assert(q[p.len() - 1] == p.last());
            assert(dot_chunks(s)[p.len() - 1] == p.last());
            assert(p.last().take(p.last().len() as int) =~= p.last());
        } else {
            assert(q =~= p.update(p.len() - 1, p.last().push(s[i])));
            assert(q.last() == p.last().push(s[i]));
            let k = p.len() - 1;
            let full = dot_chunks(s)[k];
            assert(full.take(q.last().len() as int) == q.last());
            assert(full.take(p.last().len() as int) =~= q.last().take(p.last().len() as int));
            assert(q.last().take(p.last().len() as int) =~= p.last());
        }
    }
}

impl Version {
    /// Parse a dotted version string. Succeeds exactly on well-formed version
    /// strings, preserving the textual form and reading each chunk as one
    /// numeric component.
    pub fn parse(s: &str) -> (r: Result<Version, VersionParseError>)
        ensures
            match r {
                Ok(v) => is_version_str(s@) && v.raw@ == s@ && v.components@ == version_comps_of(
                    s@,
                ),
                Err(_) => !is_version_str(s@),
            },
    {
        let n = s.unicode_len();
        let mut comps: Vec<u64> = Vec::new();
        let mut cur: u64 = 0;
        let mut has_digits = false;
        let mut i: usize = 0;
        proof {
            assert(s@.take(0) =~= Seq::<char>::empty());
        }
        while i < n
            invariant
                i <= n,
                n == s@.len(),
                dot_chunks(s@.take(i as int)).len() == comps@.len() + 1,
                forall|j: int|
                    0 <= j < comps@.len() ==> chunk_ok(#[trigger] dot_chunks(s@.take(i as int))[j])
                        && comps@[j] == digits_value(dot_chunks(s@.take(i as int))[j]),
                all_digits(dot_chunks(s@.take(i as int)).last()),
                digits_value(dot_chunks(s@.take(i as int)).last()) == cur,
                has_digits == (dot_chunks(s@.take(i as int)).last().len() > 0),
            decreases n - i,
        {
            let c = s.get_char(i);
            let ghost p = dot_chunks(s@.take(i as int));
            let ghost q = dot_chunks(s@.take(i + 1));
            proof {
                assert(s@.take(i + 1).drop_last() =~= s@.take(i as int));
                assert(s@.take(i + 1).last() == c);
                lemma_dot_chunks_nonempty(s@.take(i as int));
            }
            if c == '.' {
                if !has_digits {
                    proof {
                        lemma_dot_chunks_prefix(s@, i + 1);
                        assert(q =~= p.push(Seq::<char>::empty()));
                        assert(dot_chunks(s@)[p.len() - 1] == p.last());
                        assert(!chunk_ok(dot_chunks(s@)[p.len() - 1]));
                    }
                    return Err(VersionParseError);
                }
                comps.push(cur);
                cur = 0;
                has_digits = false;
                proof {
                    assert(q =~= p.push(Seq::<char>::empty()));
                    lemma_dot_chunks_prefix(s@, i + 1);
                    assert forall|j: int| 0 <= j < comps@.len() implies chunk_ok(
                        #[trigger] q[j],
                    ) && comps@[j] == digits_value(q[j]) by {
                        if j < comps@.len() - 1 {
                            assert(q[j] == p[j]);
                        } else {
                            assert(q[j] == p.last());
                        }
                    }
                }
            } else if '0' <= c && c <= '9' {
                let d: u64 = (c as u32 as u64) - ('0' as u32 as u64);
                let wide: u128 = (cur as u128) * 10 + (d as u128);
                proof {
                    assert(q =~= p.update(p.len() - 1, p.last().push(c)));
                    assert(q.last() == p.last().push(c));
                    assert(q.last().drop_last() =~= p.last());
                    assert(digits_value(q.last()) == cur * 10 + digit_val(c));
                }
                if wide > u64::MAX as u128 {
                    proof {
                        lemma_dot_chunks_prefix(s@, i + 1);
                        let k = p.len() - 1;
                        let full = dot_chunks(s@)[k];
                        assert(full.take(q.last().len() as int) == q.last());
                        if chunk_ok(full) {
                            lemma_digits_value_prefix(full, q.last().len() as int);
                            assert(digits_value(q.last()) <= digits_value(full));
                        }
                        assert(!chunk_ok(dot_chunks(s@)[k]));
                    }
                    return Err(VersionParseError);
                }
                cur = wide as u64;
                has_digits = true;
                proof {
                    assert forall|j: int| 0 <= j < comps@.len() implies chunk_ok(
                        #[trigger] q[j],
                    ) && comps@[j] == digits_value(q[j]) by {
                        assert(q[j] == p[j]);
                    }
                }
            } else {
                proof {
                    lemma_dot_chunks_prefix(s@, i + 1);
                    assert(q =~= p.update(p.len() - 1, p.last().push(c)));
                    assert(q.last() == p.last().push(c));
                    let k = p.len() - 1;
                    let full = dot_chunks(s@)[k];
                    assert(full.take(q.last().len() as int) == q.last());
                    let m = q.last().len() - 1;
                    assert(full[m] == q.last()[m]);
                    assert(full[m] == c);
                    assert(!chunk_ok(dot_chunks(s@)[k]));
                }
                return Err(VersionParseError);
            }
            i += 1;
        }
        proof {
            assert(s@.take(n as int) =~= s@);
        }
        if !has_digits {
            proof {
                lemma_dot_chunks_nonempty(s@);
                assert(!chunk_ok(dot_chunks(s@).last()));
            }
            return Err(VersionParseError);
        }
        comps.push(cur);
        proof {
            let f = dot_chunks(s@);
            assert forall|j: int| 0 <= j < f.len() implies chunk_ok(#[trigger] f[j]) by {
                if j < f.len() - 1 {
                    assert(chunk_ok(f[j]));
                } else {
                    assert(f[j] == f.last());
                }
            }
            assert(comps@ =~= version_comps_of(s@));
        }
        Ok(Version { components: comps, raw: s.to_owned() })
    }
}

impl Clone for Version {
    fn clone(&self) -> (r: Self)
        ensures
            r.components@ == self.components@,
            r.raw@ == self.raw@,
    {
        let mut components: Vec<u64> = Vec::new();
        let mut i: usize = 0;
        while i < self.components.len()
            invariant
                i <= self.components@.len(),
                components@ == self.components@.take(i as int),
            decreases self.components@.len() - i,
        {
            components.push(self.components[i]);
            proof {
                assert(components@ =~= self.components@.take(i + 1));
            }
            i += 1;
        }
        proof {
            assert(components@ =~= self.components@);
        }
        Version { components, raw: self.raw.clone() }
    }
}


/// The textual form of a version value.
pub open spec fn version_str(v: Version) -> Seq<char> {
    v.raw@
}

/// Parsing a well-formed version string and rendering the result returns the
/// original string: `parse` keeps the text it was given, and `to_string`
/// returns that text.
pub proof fn lemma_version_roundtrip(s: Seq<char>, v: Version)
    requires
        is_version_str(s),
        v.raw@ == s,
        v.components@ == version_comps_of(s),
    ensures
        version_str(v) == s,
{
}

} // verus!
