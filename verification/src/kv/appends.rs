//! Checks of the value that concurrent clients built by appending
//! `x <client> <index> y` in turn: each element is there once, and each
//! client's elements come in the order it appended them.

use vstd::prelude::*;
use vstd::string::StrSliceExecFns;

verus! {

/// The decimal digit `d`.
pub open spec fn digit(d: nat) -> char {
    ((48 + d) as u8) as char
}

/// The decimal notation of `n`, as std writes an integer.
pub open spec fn decimal(n: nat) -> Seq<char>
    decreases n,
{
    if n < 10 {
        seq![digit(n)]
    } else {
        decimal(n / 10).push(digit(n % 10))
    }
}

/// Appends the decimal notation of `n` to `out`.
fn push_decimal(out: &mut Vec<char>, n: usize)
    ensures
        final(out)@ == old(out)@ + decimal(n as nat),
    decreases n,
{
    let d = (n % 10) as u8;
    let c = (48u8 + d) as char;
    if n >= 10 {
        push_decimal(out, n / 10);
    }
    out.push(c);
}

/// The element that client `clnt` appends as its `j`-th: `x <clnt> <j> y`.
pub open spec fn element(clnt: nat, j: nat) -> Seq<char> {
    seq!['x', ' '] + decimal(clnt) + seq![' '] + decimal(j) + seq![' ', 'y']
}

fn make_element(clnt: usize, j: usize) -> (w: Vec<char>)
    ensures
        w@ == element(clnt as nat, j as nat),
{
    let mut w: Vec<char> = Vec::new();
    w.push('x');
    w.push(' ');
    push_decimal(&mut w, clnt);
    w.push(' ');
    push_decimal(&mut w, j);
    w.push(' ');
    w.push('y');
    proof {
        assert(w@ =~= element(clnt as nat, j as nat));
    }
    w
}

/// `w` occurs in `v` at position `i`.
pub open spec fn occurs_at(v: Seq<char>, w: Seq<char>, i: int) -> bool {
    0 <= i && i + w.len() <= v.len() && v.subrange(i, i + w.len()) == w
}

/// `w` occurs in `v`.
pub open spec fn present(v: Seq<char>, w: Seq<char>) -> bool {
    exists|i: int| occurs_at(v, w, i)
}

/// `w` occurs in `v` at one position only.
pub open spec fn once(v: Seq<char>, w: Seq<char>) -> bool {
    forall|i: int, k: int| occurs_at(v, w, i) && occurs_at(v, w, k) ==> i == k
}

/// `i` is the first position where `w` occurs in `v`.
pub open spec fn first_at(v: Seq<char>, w: Seq<char>, i: int) -> bool {
    occurs_at(v, w, i) && forall|k: int| 0 <= k < i ==> !occurs_at(v, w, k)
}

/// The first position where `w` occurs in `v`.
pub open spec fn first(v: Seq<char>, w: Seq<char>) -> int {
    choose|i: int| first_at(v, w, i)
}

/// The first `n` elements of client `clnt` occur in `v` once each, and in
/// the order the client appended them.
pub open spec fn appends_in_order(v: Seq<char>, clnt: nat, n: nat) -> bool {
    forall|j: int| 0 <= j < n ==> {
        &&& present(v, #[trigger] element(clnt, j as nat))
        &&& once(v, element(clnt, j as nat))
        &&& j > 0 ==> first(v, element(clnt, (j - 1) as nat)) < first(v, element(clnt, j as nat))
    }
}

/// What is wrong with an element of a value.
#[derive(Debug, Clone, Copy, PartialEq, Eq)]
pub enum AppendFault {
    /// It does not occur.
    Missing,
    /// It occurs more than once.
    Duplicate,
    /// It occurs before the element the same client appended before it.
    WrongOrder,
}

/// The element of a client that is wrong in a value, and how.
#[derive(Debug, Clone, Copy, PartialEq, Eq)]
pub struct AppendError {
    pub client: usize,
    pub index: usize,
    pub fault: AppendFault,
}

/// Element `j` of client `clnt` is wrong in `v` as `fault` says.
pub open spec fn faulty(v: Seq<char>, clnt: nat, j: nat, fault: AppendFault) -> bool {
    let w = element(clnt, j);
    match fault {
        AppendFault::Missing => !present(v, w),
        AppendFault::Duplicate => present(v, w) && !once(v, w),
        AppendFault::WrongOrder => present(v, w) && once(v, w) && j > 0 && first(v, w) <= first(v, element(clnt, (j - 1) as nat)),
    }
}

/// The first position where `w` occurs is the one that `first` names.
proof fn lemma_first(v: Seq<char>, w: Seq<char>, i: int)
    requires
        first_at(v, w, i),
    ensures
        first(v, w) == i,
{
    let f = first(v, w);
    assert(first_at(v, w, f));
    if f < i {
        assert(!occurs_at(v, w, f));
    }
    if i < f {
        assert(!occurs_at(v, w, i));
    }
}

/// Whether `w` occurs in `v` at `i`.
fn occurs_at_exec(v: &Vec<char>, w: &Vec<char>, i: usize) -> (r: bool)
    ensures
        r == occurs_at(v@, w@, i as int),
{
    if w.len() > v.len() || i > v.len() - w.len() {
        return false;
    }
    let n = v.len();
    let mut k: usize = 0;
    while k < w.len()
        invariant
            n == v@.len(),
            i + w@.len() <= v@.len(),
            k <= w@.len(),
            forall|m: int| 0 <= m < k ==> v@[i + m] == w@[m],
        decreases w@.len() - k,
    {
        assert(i + k < n);
        if v[i + k] != w[k] {
            assert(v@.subrange(i as int, i + w@.len())[k as int] != w@[k as int]);
            return false;
        }
        k = k + 1;
    }
    assert(v@.subrange(i as int, i + w@.len()) =~= w@);
    true
}

/// The first position where `w` occurs in `v`, if it occurs.
fn find(v: &Vec<char>, w: &Vec<char>) -> (r: Option<usize>)
    ensures
        r is None <==> !present(v@, w@),
        r matches Some(i) ==> first_at(v@, w@, i as int),
{
    if w.len() > v.len() {
        return None;
    }
    let last = v.len() - w.len();
    let mut i: usize = 0;
    loop
        invariant
            last == v@.len() - w@.len(),
            i <= last,
            forall|k: int| 0 <= k < i ==> !occurs_at(v@, w@, k),
        decreases last - i,
    {
        if occurs_at_exec(v, w, i) {
            return Some(i);
        }
        if i == last {
            return None;
        }
        i = i + 1;
    }
}

/// The last position where `w` occurs in `v`, if it occurs.
fn rfind(v: &Vec<char>, w: &Vec<char>) -> (r: Option<usize>)
    ensures
        r is None <==> !present(v@, w@),
        r matches Some(i) ==> occurs_at(v@, w@, i as int) && forall|k: int| i < k ==> !occurs_at(v@, w@, k),
{
    if w.len() > v.len() {
        return None;
    }
    let mut i: usize = v.len() - w.len();
    loop
        invariant
            i <= v@.len() - w@.len(),
            forall|k: int| i < k ==> !occurs_at(v@, w@, k),
        decreases i,
    {
        if occurs_at_exec(v, w, i) {
            return Some(i);
        }
        if i == 0 {
            return None;
        }
        i = i - 1;
    }
}

/// The characters of `s`.
fn chars_of(s: &str) -> (r: Vec<char>)
    ensures
        r@ == s@,
{
    let n = s.unicode_len();
    let mut r: Vec<char> = Vec::new();
    let mut i: usize = 0;
    while i < n
        invariant
            n == s@.len(),
            i <= n,
            r@ == s@.take(i as int),
        decreases n - i,
    {
        r.push(s.get_char(i));
        i = i + 1;
        assert(r@ =~= s@.take(i as int));
    }
    assert(s@.take(n as int) =~= s@);
    r
}

/// An element found once, after the one before it, extends the run of
/// elements in order.
proof fn lemma_in_order_step(v: Seq<char>, clnt: nat, j: nat, off: int)
    requires
        appends_in_order(v, clnt, j),
        first_at(v, element(clnt, j), off),
        once(v, element(clnt, j)),
        j > 0 ==> first(v, element(clnt, (j - 1) as nat)) < off,
    ensures
        appends_in_order(v, clnt, j + 1),
{
    lemma_first(v, element(clnt, j), off);
    assert forall|jj: int| 0 <= jj < j + 1 implies {
        &&& present(v, #[trigger] element(clnt, jj as nat))
        &&& once(v, element(clnt, jj as nat))
        &&& jj > 0 ==> first(v, element(clnt, (jj - 1) as nat)) < first(v, element(clnt, jj as nat))
    } by {
        if jj == j {
            assert(occurs_at(v, element(clnt, j), off));
        }
    }
}

/// A wrong element below `count` breaks the run of `count` elements.
proof fn lemma_fault_breaks(v: Seq<char>, clnt: nat, j: nat, count: nat, fault: AppendFault)
    requires
        j < count,
        faulty(v, clnt, j, fault),
    ensures
        !appends_in_order(v, clnt, count),
{
    if appends_in_order(v, clnt, count) {
        let jj: int = j as int;
        assert(0 <= jj < count);
        assert(jj as nat == j);
        assert(present(v, element(clnt, jj as nat)));
        assert(once(v, element(clnt, jj as nat)));
        assert(jj > 0 ==> first(v, element(clnt, (jj - 1) as nat)) < first(v, element(clnt, jj as nat)));
    }
}

fn check_clnt_chars(clnt: usize, v: &Vec<char>, count: usize) -> (r: Result<(), AppendError>)
    ensures
        r is Ok <==> appends_in_order(v@, clnt as nat, count as nat),
        r matches Err(e) ==> e.client == clnt && e.index < count && appends_in_order(v@, clnt as nat, e.index as nat)
            && faulty(v@, clnt as nat, e.index as nat, e.fault),
{
    let mut lastoff: Option<usize> = None;
    let mut j: usize = 0;
    while j < count
        invariant
            j <= count,
            appends_in_order(v@, clnt as nat, j as nat),
            j == 0 ==> lastoff is None,
            j > 0 ==> (lastoff matches Some(l) && l == first(v@, element(clnt as nat, (j - 1) as nat))),
        decreases count - j,
    {
        let wanted = make_element(clnt, j);
        let ghost w = element(clnt as nat, j as nat);
        let off = match find(v, &wanted) {
            Some(off) => off,
            None => {
                proof {
                    lemma_fault_breaks(v@, clnt as nat, j as nat, count as nat, AppendFault::Missing);
                }
                return Err(AppendError { client: clnt, index: j, fault: AppendFault::Missing });
            },
        };
        proof {
            lemma_first(v@, w, off as int);
        }
        let off1 = rfind(v, &wanted);
        if off1 != Some(off) {
            proof {
                let o1 = off1->0;
                assert(occurs_at(v@, w, o1 as int) && occurs_at(v@, w, off as int));
                assert(!once(v@, w));
                lemma_fault_breaks(v@, clnt as nat, j as nat, count as nat, AppendFault::Duplicate);
            }
            return Err(AppendError { client: clnt, index: j, fault: AppendFault::Duplicate });
        }
        proof {
            assert forall|a: int, b: int| occurs_at(v@, w, a) && occurs_at(v@, w, b) implies a == b by {
                assert(off <= a && a <= off);
                assert(off <= b && b <= off);
            }
            assert(once(v@, w));
        }
        if let Some(last) = lastoff {
            if off <= last {
                proof {
                    lemma_fault_breaks(v@, clnt as nat, j as nat, count as nat, AppendFault::WrongOrder);
                }
                return Err(AppendError { client: clnt, index: j, fault: AppendFault::WrongOrder });
            }
        }
        proof {
            lemma_in_order_step(v@, clnt as nat, j as nat, off as int);
        }
        lastoff = Some(off);
        j = j + 1;
    }
    Ok(())
}

/// Checks that the elements `x <clnt> 0 y` to `x <clnt> <count - 1> y` all
/// occur in `v`, once each, in this order; otherwise names the first that
/// does not, and what is wrong with it.
pub fn check_clnt_appends(clnt: usize, v: &str, count: usize) -> (r: Result<(), AppendError>)
    ensures
        r is Ok <==> appends_in_order(v@, clnt as nat, count as nat),
        r matches Err(e) ==> e.client == clnt && e.index < count && appends_in_order(v@, clnt as nat, e.index as nat)
            && faulty(v@, clnt as nat, e.index as nat, e.fault),
{
    let chars = chars_of(v);
    check_clnt_chars(clnt, &chars, count)
}

/// Checks the elements of each client `i` below `counts.len()`, as
/// `check_clnt_appends` does with `counts[i]`; otherwise names the first
/// wrong element of the first client that has one.
pub fn check_concurrent_appends(v: &str, counts: &[usize]) -> (r: Result<(), AppendError>)
    ensures
        r is Ok <==> forall|i: int| 0 <= i < counts@.len() ==> appends_in_order(v@, i as nat, #[trigger] counts@[i] as nat),
        r matches Err(e) ==> {
            &&& e.client < counts@.len()
            &&& forall|i: int| 0 <= i < e.client ==> appends_in_order(v@, i as nat, #[trigger] counts@[i] as nat)
            &&& e.index < counts@[e.client as int]
            &&& appends_in_order(v@, e.client as nat, e.index as nat)
            &&& faulty(v@, e.client as nat, e.index as nat, e.fault)
        },
{
    let chars = chars_of(v);
    let mut i: usize = 0;
    while i < counts.len()
        invariant
            chars@ == v@,
            i <= counts@.len(),
            forall|k: int| 0 <= k < i ==> appends_in_order(v@, k as nat, #[trigger] counts@[k] as nat),
        decreases counts@.len() - i,
    {
        match check_clnt_chars(i, &chars, counts[i]) {
            Ok(()) => {},
            Err(e) => {
                return Err(e);
            },
        }
        i = i + 1;
    }
    Ok(())
}

} // verus!
