//! Character-level helpers: the whitespace of `char::is_whitespace`, trimming
//! as `str::trim` does it, and the two ways a line splits into fields.
use vstd::prelude::*;

verus! {

/// `char::is_whitespace`: the characters with the Unicode `White_Space`
/// property.
pub open spec fn is_white_space(c: char) -> bool {
    let u = c as u32;
    ||| 0x9 <= u <= 0xd
    ||| u == 0x20
    ||| u == 0x85
    ||| u == 0xa0
    ||| u == 0x1680
    ||| 0x2000 <= u <= 0x200a
    ||| u == 0x2028
    ||| u == 0x2029
    ||| u == 0x202f
    ||| u == 0x205f
    ||| u == 0x3000
}

/// `s` with its leading whitespace removed.
pub open spec fn trim_start(s: Seq<char>) -> Seq<char>
    decreases s.len(),
{
    if s.len() > 0 && is_white_space(s[0]) {
        trim_start(s.drop_first())
    } else {
        s
    }
}

/// `s` with its trailing whitespace removed.
pub open spec fn trim_end(s: Seq<char>) -> Seq<char>
    decreases s.len(),
{
    if s.len() > 0 && is_white_space(s.last()) {
        trim_end(s.drop_last())
    } else {
        s
    }
}

/// `str::trim`: `s` without leading and trailing whitespace.
pub open spec fn trim(s: Seq<char>) -> Seq<char> {
    trim_end(trim_start(s))
}

/// `s` without its trailing carriage returns and line feeds
/// (`str::trim_end_matches(['\r', '\n'])`).
pub open spec fn trim_end_line_breaks(s: Seq<char>) -> Seq<char>
    decreases s.len(),
{
    if s.len() > 0 && (s.last() == '\r' || s.last() == '\n') {
        trim_end_line_breaks(s.drop_last())
    } else {
        s
    }
}

/// `str::split('\t')`: the pieces of `s` between tabs, empty ones included;
/// a string without tabs is one piece.
pub open spec fn split_on_tab(s: Seq<char>) -> Seq<Seq<char>>
    decreases s.len(),
{
    if s.len() == 0 {
        seq![Seq::<char>::empty()]
    } else {
        let prev = split_on_tab(s.drop_last());
        if s.last() == '\t' {
            prev.push(Seq::<char>::empty())
        } else {
            prev.update(prev.len() - 1, prev.last().push(s.last()))
        }
    }
}

/// Reading `s` from the left: the nonempty whitespace-free pieces completed so
/// far, and the piece being read.
pub open spec fn white_space_split_state(s: Seq<char>) -> (Seq<Seq<char>>, Seq<char>)
    decreases s.len(),
{
    if s.len() == 0 {
        (Seq::<Seq<char>>::empty(), Seq::<char>::empty())
    } else {
        let (done, cur) = white_space_split_state(s.drop_last());
        if is_white_space(s.last()) {
            if cur.len() > 0 {
                (done.push(cur), Seq::<char>::empty())
            } else {
                (done, Seq::<char>::empty())
            }
        } else {
            (done, cur.push(s.last()))
        }
    }
}

/// `str::split_whitespace`: the maximal nonempty runs of non-whitespace
/// characters of `s`, in order.
pub open spec fn split_white_space(s: Seq<char>) -> Seq<Seq<char>> {
    let (done, cur) = white_space_split_state(s);
    if cur.len() > 0 {
        done.push(cur)
    } else {
        done
    }
}

/// The character sequences that a sequence of `Vec<char>` holds.
pub open spec fn texts(v: Seq<Vec<char>>) -> Seq<Seq<char>> {
    v.map_values(|x: Vec<char>| x@)
}

pub fn is_white_space_char(c: char) -> (r: bool)
    ensures
        r == is_white_space(c),
{
    let u = c as u32;
    (0x9 <= u && u <= 0xd) || u == 0x20 || u == 0x85 || u == 0xa0 || u == 0x1680 || (0x2000
        <= u && u <= 0x200a) || u == 0x2028 || u == 0x2029 || u == 0x202f || u == 0x205f || u
        == 0x3000
}

/// A copy of `s[a..b]`.
pub fn copy_range(s: &[char], a: usize, b: usize) -> (r: Vec<char>)
    requires
        a <= b <= s.len(),
    ensures
        r@ == s@.subrange(a as int, b as int),
{
    let mut r: Vec<char> = Vec::new();
    let mut k = a;
    while k < b
        invariant
            a <= k <= b <= s.len(),
            r@ == s@.subrange(a as int, k as int),
        decreases b - k,
    {
        r.push(s[k]);
        k = k + 1;
        proof {
            assert(r@ =~= s@.subrange(a as int, k as int));
        }
    }
    r
}

/// `str::trim` on a character slice.
pub fn trim_chars(s: &[char]) -> (r: Vec<char>)
    ensures
        r@ == trim(s@),
{
    let n = s.len();
    let mut a: usize = 0;
    proof {
        assert(s@.subrange(0, n as int) =~= s@);
    }
    while a < n && is_white_space_char(s[a])
        invariant
            n == s.len(),
            a <= n,
            trim_start(s@) == trim_start(s@.subrange(a as int, n as int)),
        decreases n - a,
    {
        proof {
            let sub = s@.subrange(a as int, n as int);
            assert(sub.drop_first() =~= s@.subrange(a + 1, n as int));
        }
        a = a + 1;
    }
    proof {
        assert(trim_start(s@.subrange(a as int, n as int)) == s@.subrange(a as int, n as int));
    }
    let mut b: usize = n;
    while b > a && is_white_space_char(s[b - 1])
        invariant
            n == s.len(),
            a <= b <= n,
            trim(s@) == trim_end(s@.subrange(a as int, b as int)),
        decreases b,
    {
        proof {
            let sub = s@.subrange(a as int, b as int);
            assert(sub.drop_last() =~= s@.subrange(a as int, b - 1));
        }
        b = b - 1;
    }
    copy_range(s, a, b)
}

/// The length of `s` once its trailing carriage returns and line feeds are
/// removed.
pub fn line_breaks_stripped_len(s: &[char]) -> (b: usize)
    ensures
        b <= s.len(),
        trim_end_line_breaks(s@) == s@.subrange(0, b as int),
{
    let mut b: usize = s.len();
    proof {
        assert(s@.subrange(0, b as int) =~= s@);
    }
    while b > 0 && (s[b - 1] == '\r' || s[b - 1] == '\n')
        invariant
            b <= s.len(),
            trim_end_line_breaks(s@) == trim_end_line_breaks(s@.subrange(0, b as int)),
        decreases b,
    {
        proof {
            assert(s@.subrange(0, b as int).drop_last() =~= s@.subrange(0, b - 1));
        }
        b = b - 1;
    }
    b
}

/// `s` holds a tab.
pub fn has_tab(s: &[char]) -> (r: bool)
    ensures
        r == s@.contains('\t'),
{
    let mut k: usize = 0;
    while k < s.len()
        invariant
            k <= s.len(),
            forall|m: int| 0 <= m < k ==> s@[m] != '\t',
        decreases s.len() - k,
    {
        if s[k] == '\t' {
            proof {
                assert(s@[k as int] == '\t');
            }
            return true;
        }
        k = k + 1;
    }
    false
}

/// `str::split('\t')` on a character slice.
pub fn split_tabs(s: &[char]) -> (r: Vec<Vec<char>>)
    ensures
        texts(r@) == split_on_tab(s@),
{
    let mut done: Vec<Vec<char>> = Vec::new();
    let mut cur: Vec<char> = Vec::new();
    let mut k: usize = 0;
    proof {
        assert(s@.subrange(0, 0) =~= Seq::<char>::empty());
        assert(texts(done@).push(cur@) =~= seq![Seq::<char>::empty()]);
    }
    while k < s.len()
        invariant
            k <= s.len(),
            texts(done@).push(cur@) == split_on_tab(s@.subrange(0, k as int)),
        decreases s.len() - k,
    {
        let c = s[k];
        let ghost prev = texts(done@).push(cur@);
        proof {
            let t = s@.subrange(0, k + 1);
            assert(t.drop_last() =~= s@.subrange(0, k as int));
            assert(t.last() == c);
        }
        if c == '\t' {
            done.push(cur);
            cur = Vec::new();
            proof {
                assert(texts(done@).push(cur@) =~= prev.push(Seq::<char>::empty()));
            }
        } else {
            cur.push(c);
            proof {
                assert(texts(done@).push(cur@) =~= prev.update(
                    prev.len() - 1,
                    prev.last().push(c),
                ));
            }
        }
        k = k + 1;
    }
    proof {
        assert(s@.subrange(0, s.len() as int) =~= s@);
    }
    done.push(cur);
    done
}

/// `str::split_whitespace` on a character slice.
pub fn split_white_space_chars(s: &[char]) -> (r: Vec<Vec<char>>)
    ensures
        texts(r@) == split_white_space(s@),
{
    let mut done: Vec<Vec<char>> = Vec::new();
    let mut cur: Vec<char> = Vec::new();
    let mut k: usize = 0;
    proof {
        assert(s@.subrange(0, 0) =~= Seq::<char>::empty());
        assert(texts(done@) =~= Seq::<Seq<char>>::empty());
    }
    while k < s.len()
        invariant
            k <= s.len(),
            (texts(done@), cur@) == white_space_split_state(s@.subrange(0, k as int)),
        decreases s.len() - k,
    {
        let c = s[k];
        let ghost prev_done = texts(done@);
        let ghost prev_cur = cur@;
        proof {
            let t = s@.subrange(0, k + 1);
            assert(t.drop_last() =~= s@.subrange(0, k as int));
            assert(t.last() == c);
        }
        if is_white_space_char(c) {
            if cur.len() > 0 {
                done.push(cur);
                cur = Vec::new();
                proof {
                    assert(texts(done@) =~= prev_done.push(prev_cur));
                }
            } else {
                proof {
                    assert(cur@ =~= Seq::<char>::empty());
                }
            }
        } else {
            cur.push(c);
        }
        k = k + 1;
    }
    proof {
        assert(s@.subrange(0, s.len() as int) =~= s@);
    }
    if cur.len() > 0 {
        let ghost prev_done = texts(done@);
        done.push(cur);
        proof {
            assert(texts(done@) =~= prev_done.push(cur@));
        }
    }
    done
}

/// The two character sequences are the same.
pub fn same_chars(a: &[char], b: &[char]) -> (r: bool)
    ensures
        r == (a@ == b@),
{
    if a.len() != b.len() {
        return false;
    }
    let mut k: usize = 0;
    while k < a.len()
        invariant
            a.len() == b.len(),
            k <= a.len(),
            forall|m: int| 0 <= m < k ==> a@[m] == b@[m],
        decreases a.len() - k,
    {
        if a[k] != b[k] {
            return false;
        }
        k = k + 1;
    }
    proof {
        assert(a@ =~= b@);
    }
    true
}

} // verus!

verus! {

/// A text without a tab is one tab-separated piece.
pub proof fn lemma_split_no_tab(a: Seq<char>)
    requires
        !a.contains('\t'),
    ensures
        split_on_tab(a) == seq![a],
    decreases a.len(),
{
    if a.len() > 0 {
        let d = a.drop_last();
        assert(!d.contains('\t')) by {
            if d.contains('\t') {
                let i = choose|i: int| 0 <= i < d.len() && d[i] == '\t';
                assert(a[i] == '\t');
            }
        }
        lemma_split_no_tab(d);
        assert(a.last() != '\t') by {
            assert(a[a.len() - 1] == a.last());
        }
        assert(d.push(a.last()) =~= a);
    } else {
        assert(a =~= Seq::<char>::empty());
    }
}

/// Two tab-free texts joined by one tab split back into the two.
pub proof fn lemma_split_one_tab(a: Seq<char>, b: Seq<char>)
    requires
        !a.contains('\t'),
        !b.contains('\t'),
    ensures
        split_on_tab(a + seq!['\t'] + b) == seq![a, b],
    decreases b.len(),
{
    let s = a + seq!['\t'] + b;
    if b.len() == 0 {
        assert(s.drop_last() =~= a);
        assert(s.last() == '\t');
        lemma_split_no_tab(a);
        assert(b =~= Seq::<char>::empty());
        assert(seq![a].push(Seq::<char>::empty()) =~= seq![a, b]);
    } else {
        let d = b.drop_last();
        assert(!d.contains('\t')) by {
            if d.contains('\t') {
                let i = choose|i: int| 0 <= i < d.len() && d[i] == '\t';
                assert(b[i] == '\t');
            }
        }
        lemma_split_one_tab(a, d);
        assert(s.drop_last() =~= a + seq!['\t'] + d);
        assert(s.last() == b.last());
        assert(b.last() != '\t') by {
            assert(b[b.len() - 1] == b.last());
        }
        assert(d.push(b.last()) =~= b);
        assert(seq![a, d].update(1, d.push(b.last())) =~= seq![a, b]);
    }
}

} // verus!

verus! {

/// `s` holds a character that is not whitespace.
pub open spec fn has_visible(s: Seq<char>) -> bool {
    exists|i: int| 0 <= i < s.len() && !is_white_space(#[trigger] s[i])
}

/// `trim_start` drops a whitespace prefix and keeps the rest.
pub proof fn lemma_trim_start_suffix(s: Seq<char>) -> (k: int)
    ensures
        0 <= k <= s.len(),
        trim_start(s) == s.subrange(k, s.len() as int),
        forall|i: int| 0 <= i < k ==> is_white_space(#[trigger] s[i]),
        k < s.len() ==> !is_white_space(s[k]),
    decreases s.len(),
{
    if s.len() > 0 && is_white_space(s[0]) {
        let d = s.drop_first();
        let k0 = lemma_trim_start_suffix(d);
        assert(d.subrange(k0, d.len() as int) =~= s.subrange(k0 + 1, s.len() as int));
        assert forall|i: int| 0 <= i < k0 + 1 implies is_white_space(#[trigger] s[i]) by {
            if i > 0 {
                assert(s[i] == d[i - 1]);
            }
        }
        k0 + 1
    } else {
        assert(s.subrange(0, s.len() as int) =~= s);
        0
    }
}

/// Trimming leaves something exactly when the text holds a character that
/// is not whitespace.
pub proof fn lemma_trim_nonempty(s: Seq<char>)
    ensures
        trim(s).len() > 0 <==> has_visible(s),
{
    let k = lemma_trim_start_suffix(s);
    let u = trim_start(s);
    lemma_trim_end_prefix(u);
    if has_visible(s) {
        let i = choose|i: int| 0 <= i < s.len() && !is_white_space(#[trigger] s[i]);
        assert(k <= i);
        assert(u[0] == s[k]);
    } else if k < s.len() {
        assert(!is_white_space(s[k]));
        assert(has_visible(s));
    }
}

} // verus!

verus! {

/// What `trim_end` keeps is a prefix of `s` ending in a non-whitespace
/// character, and it keeps a non-whitespace first character.
pub proof fn lemma_trim_end_prefix(s: Seq<char>)
    ensures
        trim_end(s) == s.subrange(0, trim_end(s).len() as int),
        trim_end(s).len() <= s.len(),
        trim_end(s).len() > 0 ==> !is_white_space(trim_end(s).last()),
        s.len() > 0 && !is_white_space(s[0]) ==> trim_end(s).len() > 0,
        forall|i: int| trim_end(s).len() <= i < s.len() ==> is_white_space(#[trigger] s[i]),
    decreases s.len(),
{
    if s.len() > 0 && is_white_space(s.last()) {
        let d = s.drop_last();
        lemma_trim_end_prefix(d);
        assert(d.subrange(0, trim_end(s).len() as int) =~= s.subrange(
            0,
            trim_end(s).len() as int,
        ));
        assert forall|i: int| trim_end(s).len() <= i < s.len() implies is_white_space(
            #[trigger] s[i],
        ) by {
            if i < d.len() {
                assert(s[i] == d[i]);
            }
        }
    } else {
        assert(s.subrange(0, s.len() as int) =~= s);
    }
}

} // verus!

verus! {

/// Trimming removes whitespace and nothing else: `trim(s)` is `s[k..m]`,
/// everything before `k` and from `m` on is whitespace, and what is kept
/// begins and ends with a character that is not. So a text without
/// surrounding whitespace trims to itself.
pub proof fn lemma_trim_removes_only_white_space(s: Seq<char>) -> (km: (int, int))
    ensures
        0 <= km.0 <= km.1 <= s.len(),
        trim(s) == s.subrange(km.0, km.1),
        forall|i: int| 0 <= i < km.0 ==> is_white_space(#[trigger] s[i]),
        forall|i: int| km.1 <= i < s.len() ==> is_white_space(#[trigger] s[i]),
        km.0 < km.1 ==> !is_white_space(s[km.0]) && !is_white_space(s[km.1 - 1]),
{
    let k = lemma_trim_start_suffix(s);
    let u = trim_start(s);
    lemma_trim_end_prefix(u);
    let len = trim_end(u).len() as int;
    let m = k + len;
    assert(trim(s) =~= s.subrange(k, m));
    assert forall|i: int| m <= i < s.len() implies is_white_space(#[trigger] s[i]) by {
        assert(s[i] == u[i - k]);
    }
    if k < m {
        assert(s[m - 1] == trim_end(u).last());
    }
    (k, m)
}

} // verus!

verus! {

/// Stripping line breaks drops a tail of `\r` and `\n` characters and keeps
/// the rest.
pub proof fn lemma_line_breaks_stripped_prefix(s: Seq<char>) -> (j: int)
    ensures
        0 <= j <= s.len(),
        trim_end_line_breaks(s) == s.subrange(0, j),
        forall|i: int| j <= i < s.len() ==> #[trigger] s[i] == '\r' || s[i] == '\n',
        j > 0 ==> s[j - 1] != '\r' && s[j - 1] != '\n',
    decreases s.len(),
{
    if s.len() > 0 && (s.last() == '\r' || s.last() == '\n') {
        let d = s.drop_last();
        let j = lemma_line_breaks_stripped_prefix(d);
        assert(d.subrange(0, j) =~= s.subrange(0, j));
        assert forall|i: int| j <= i < s.len() implies #[trigger] s[i] == '\r' || s[i] == '\n' by {
            if i < d.len() {
                assert(s[i] == d[i]);
            }
        }
        if j > 0 {
            assert(s[j - 1] == d[j - 1]);
        }
        j
    } else {
        assert(s.subrange(0, s.len() as int) =~= s);
        s.len() as int
    }
}

/// Reading on through whitespace completes the piece being read, if any.
proof fn lemma_split_state_white(s: Seq<char>, t: Seq<char>)
    requires
        forall|i: int| 0 <= i < t.len() ==> is_white_space(#[trigger] t[i]),
    ensures
        t.len() > 0 ==> white_space_split_state(s + t) == ({
            let (done, cur) = white_space_split_state(s);
            (if cur.len() > 0 {
                done.push(cur)
            } else {
                done
            }, Seq::<char>::empty())
        }),
    decreases t.len(),
{
    if t.len() > 0 {
        let d = t.drop_last();
        assert((s + t).drop_last() =~= s + d);
        assert((s + t).last() == t[t.len() - 1]);
        if d.len() == 0 {
            assert(s + d =~= s);
        } else {
            lemma_split_state_white(s, d);
        }
    }
}

/// Reading on through non-whitespace extends the piece being read.
proof fn lemma_split_state_visible(s: Seq<char>, t: Seq<char>)
    requires
        forall|i: int| 0 <= i < t.len() ==> !is_white_space(#[trigger] t[i]),
    ensures
        white_space_split_state(s + t) == ({
            let (done, cur) = white_space_split_state(s);
            (done, cur + t)
        }),
    decreases t.len(),
{
    let (done, cur) = white_space_split_state(s);
    if t.len() == 0 {
        assert(s + t =~= s);
        assert(cur + t =~= cur);
    } else {
        let d = t.drop_last();
        assert((s + t).drop_last() =~= s + d);
        assert((s + t).last() == t[t.len() - 1]);
        lemma_split_state_visible(s, d);
        assert((cur + d).push(t.last()) =~= cur + t);
    }
}

/// Two runs of non-whitespace separated by whitespace, with any whitespace
/// before and after, split into exactly those two runs.
pub proof fn lemma_split_white_space_two(
    w1: Seq<char>,
    v: Seq<char>,
    w: Seq<char>,
    l: Seq<char>,
    w2: Seq<char>,
)
    requires
        v.len() > 0,
        l.len() > 0,
        w.len() > 0,
        forall|i: int| 0 <= i < w1.len() ==> is_white_space(#[trigger] w1[i]),
        forall|i: int| 0 <= i < w.len() ==> is_white_space(#[trigger] w[i]),
        forall|i: int| 0 <= i < w2.len() ==> is_white_space(#[trigger] w2[i]),
        forall|i: int| 0 <= i < v.len() ==> !is_white_space(#[trigger] v[i]),
        forall|i: int| 0 <= i < l.len() ==> !is_white_space(#[trigger] l[i]),
    ensures
        split_white_space(w1 + v + w + l + w2) == seq![v, l],
{
    let e = Seq::<char>::empty();
    let ee = Seq::<Seq<char>>::empty();
    assert(white_space_split_state(e) == (ee, e));
    lemma_split_state_white(e, w1);
    assert(e + w1 =~= w1);
    assert(white_space_split_state(w1) == (ee, e));
    lemma_split_state_visible(w1, v);
    assert(e + v =~= v);
    lemma_split_state_white(w1 + v, w);
    assert(white_space_split_state(w1 + v + w) == (ee.push(v), e));
    lemma_split_state_visible(w1 + v + w, l);
    assert(e + l =~= l);
    lemma_split_state_white(w1 + v + w + l, w2);
    if w2.len() == 0 {
        assert(w1 + v + w + l + w2 =~= w1 + v + w + l);
        assert(ee.push(v).push(l) =~= seq![v, l]);
    } else {
        assert(ee.push(v).push(l) =~= seq![v, l]);
    }
}

} // verus!
