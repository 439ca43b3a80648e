//! Segment files: a segment of generation `g` is the file `<g>.log` in the
//! store's directory.
use vstd::prelude::*;
use vstd::string::{StrSliceExecFns, StringExecFns};

verus! {

pub open spec fn digit_char(d: nat) -> char {
    if d == 0 { '0' } else if d == 1 { '1' } else if d == 2 { '2' } else if d == 3 { '3' }
    else if d == 4 { '4' } else if d == 5 { '5' } else if d == 6 { '6' } else if d == 7 { '7' }
    else if d == 8 { '8' } else { '9' }
}

pub open spec fn is_digit(c: char) -> bool {
    '0' <= c && c <= '9'
}

pub open spec fn digit_value(c: char) -> nat {
    (c as u32 - '0' as u32) as nat
}

/// `n` in decimal, without leading zeros.
pub open spec fn decimal(n: nat) -> Seq<char>
    decreases n,
{
    if n < 10 {
        seq![digit_char(n)]
    } else {
        decimal(n / 10).push(digit_char(n % 10))
    }
}

/// `.log`
pub open spec fn log_ext() -> Seq<char> {
    seq!['.', 'l', 'o', 'g']
}

/// The file name of the segment of generation `gen`.
pub open spec fn log_name(gen: u64) -> Seq<char> {
    decimal(gen as nat) + log_ext()
}

/// `name` in directory `dir`, joined as a path: with a `/` between them
/// unless `dir` is empty or already ends with one.
pub open spec fn joined(dir: Seq<char>, name: Seq<char>) -> Seq<char> {
    if dir.len() == 0 {
        name
    } else if dir.last() == '/' {
        dir + name
    } else {
        dir + seq!['/'] + name
    }
}

pub open spec fn ends_with_log(s: Seq<char>) -> bool {
    s.len() >= 4 && s.subrange(s.len() - 4, s.len() as int) == log_ext()
}

/// `s` with every trailing `.log` taken off.
pub open spec fn trim_log(s: Seq<char>) -> Seq<char>
    decreases s.len(),
{
    if ends_with_log(s) {
        trim_log(s.subrange(0, s.len() - 4))
    } else {
        s
    }
}

/// The value of a string of decimal digits.
pub open spec fn digits_value(s: Seq<char>) -> nat
    decreases s.len(),
{
    if s.len() == 0 {
        0
    } else {
        digits_value(s.drop_last()) * 10 + digit_value(s.last())
    }
}

/// `s` without its leading `+`, if it has one.
pub open spec fn unsigned_part(s: Seq<char>) -> Seq<char> {
    if s.len() > 0 && s[0] == '+' {
        s.subrange(1, s.len() as int)
    } else {
        s
    }
}

/// `d` is a non-empty string of decimal digits.
pub open spec fn all_digits(d: Seq<char>) -> bool {
    d.len() > 0 && forall|i: int| 0 <= i < d.len() ==> is_digit(#[trigger] d[i])
}

/// A `u64` written in decimal, with an optional leading `+`: what `u64`'s
/// `from_str` accepts.
pub open spec fn parse_u64(s: Seq<char>) -> Option<u64> {
    let d = unsigned_part(s);
    if all_digits(d) && digits_value(d) <= u64::MAX {
        Some(digits_value(d) as u64)
    } else {
        None
    }
}

/// The generation that a file name stands for: a name with extension `log`
/// whose part before its trailing `.log`s is a `u64`.
pub open spec fn gen_of_name(name: Seq<char>) -> Option<u64> {
    if ends_with_log(name) {
        parse_u64(trim_log(name))
    } else {
        None
    }
}

fn digit_str(d: u64) -> (r: &'static str)
    requires
        d < 10,
    ensures
        r@ == seq![digit_char(d as nat)],
{
    proof {
        reveal_strlit("0");
        reveal_strlit("1");
        reveal_strlit("2");
        reveal_strlit("3");
        reveal_strlit("4");
        reveal_strlit("5");
        reveal_strlit("6");
        reveal_strlit("7");
        reveal_strlit("8");
        reveal_strlit("9");
    }
    if d == 0 {
        assert("0"@ =~= seq!['0']);
        "0"
    } else if d == 1 {
        assert("1"@ =~= seq!['1']);
        "1"
    } else if d == 2 {
        assert("2"@ =~= seq!['2']);
        "2"
    } else if d == 3 {
        assert("3"@ =~= seq!['3']);
        "3"
    } else if d == 4 {
        assert("4"@ =~= seq!['4']);
        "4"
    } else if d == 5 {
        assert("5"@ =~= seq!['5']);
        "5"
    } else if d == 6 {
        assert("6"@ =~= seq!['6']);
        "6"
    } else if d == 7 {
        assert("7"@ =~= seq!['7']);
        "7"
    } else if d == 8 {
        assert("8"@ =~= seq!['8']);
        "8"
    } else {
        assert("9"@ =~= seq!['9']);
        "9"
    }
}

/// `n` in decimal.
pub fn decimal_string(n: u64) -> (r: String)
    ensures
        r@ == decimal(n as nat),
    decreases n,
{
    if n < 10 {
        String::from_str(digit_str(n))
    } else {
        let mut s = decimal_string(n / 10);
        s.append(digit_str(n % 10));
        s
    }
}

/// The path of the segment of generation `gen` in directory `dir`.
pub fn log_path(dir: &str, gen: u64) -> (r: String)
    ensures
        r@ == joined(dir@, log_name(gen)),
{
    proof {
        reveal_strlit(".log");
        reveal_strlit("/");
        assert(".log"@ =~= log_ext());
        assert("/"@ =~= seq!['/']);
    }
    let mut name = decimal_string(gen);
    name.append(".log");
    let n = dir.unicode_len();
    if n == 0 {
        name
    } else if dir.get_char(n - 1) == '/' {
        let mut p = String::from_str(dir);
        p.append(name.as_str());
        p
    } else {
        let mut p = String::from_str(dir);
        p.append("/");
        p.append(name.as_str());
        assert(p@ =~= dir@ + seq!['/'] + name@);
        p
    }
}

proof fn lemma_digits_mono(s: Seq<char>, k: int)
    requires
        0 <= k <= s.len(),
    ensures
        digits_value(s.subrange(0, k)) <= digits_value(s),
    decreases s.len(),
{
    if k < s.len() {
        lemma_digits_mono(s.drop_last(), k);
        assert(s.drop_last().subrange(0, k) =~= s.subrange(0, k));
    } else {
        assert(s.subrange(0, k) =~= s);
    }
}

fn is_log_at(cs: &Vec<char>, end: usize) -> (r: bool)
    requires
        end <= cs@.len(),
    ensures
        r == ends_with_log(cs@.subrange(0, end as int)),
{
    if end < 4 {
        return false;
    }
    let r = cs[end - 4] == '.' && cs[end - 3] == 'l' && cs[end - 2] == 'o' && cs[end - 1] == 'g';
    let ghost t = cs@.subrange(0, end as int);
    assert(r ==> t.subrange(t.len() - 4, t.len() as int) =~= log_ext());
    assert(t.subrange(t.len() - 4, t.len() as int) =~= log_ext() ==> t.subrange(t.len() - 4, t.len() as int)[0] == '.' && t.subrange(t.len() - 4, t.len() as int)[1] == 'l' && t.subrange(t.len() - 4, t.len() as int)[2] == 'o' && t.subrange(t.len() - 4, t.len() as int)[3] == 'g');
    r
}

/// The generation that the file name `name` stands for, if any.
pub fn parse_gen(name: &str) -> (r: Option<u64>)
    ensures
        r == gen_of_name(name@),
{
    let n = name.unicode_len();
    let mut cs: Vec<char> = Vec::new();
    let mut i: usize = 0;
    while i < n
        invariant
            n == name@.len(),
            i <= n,
            cs@ == name@.subrange(0, i as int),
        decreases n - i,
    {
        cs.push(name.get_char(i));
        assert(cs@ =~= name@.subrange(0, i + 1));
        i = i + 1;
    }
    assert(cs@ =~= name@);
    assert(cs@.subrange(0, n as int) =~= name@);
    if !is_log_at(&cs, n) {
        return None;
    }
    let mut end = n;
    while is_log_at(&cs, end)
        invariant
            end <= cs@.len(),
            trim_log(name@) == trim_log(cs@.subrange(0, end as int)),
        decreases end,
    {
        assert(cs@.subrange(0, end as int).subrange(0, end - 4) =~= cs@.subrange(0, end - 4));
        end = end - 4;
    }
    let ghost t = cs@.subrange(0, end as int);
    assert(trim_log(name@) == t);
    assert(gen_of_name(name@) == parse_u64(t));
    let start: usize = if end > 0 && cs[0] == '+' {
        1
    } else {
        0
    };
    let ghost d = t.subrange(start as int, end as int);
    assert(d == unsigned_part(t));
    if start >= end {
        return None;
    }
    let mut v: u64 = 0;
    let mut j: usize = start;
    while j < end
        invariant
            start <= j <= end,
            end <= cs@.len(),
            t == cs@.subrange(0, end as int),
            d == t.subrange(start as int, end as int),
            d == unsigned_part(t),
            gen_of_name(name@) == parse_u64(t),
            forall|q: int| 0 <= q < j - start ==> is_digit(#[trigger] d[q]),
            v == digits_value(d.subrange(0, j - start)),
        decreases end - j,
    {
        let c = cs[j];
        if !('0' <= c && c <= '9') {
            assert(!is_digit(d[j - start]));
            assert(!all_digits(d));
            return None;
        }
        let dv = (c as u32 - '0' as u32) as u64;
        assert(d.subrange(0, j - start + 1).drop_last() =~= d.subrange(0, j - start));
        if v > (u64::MAX - dv) / 10 {
            proof {
                assert(digits_value(d.subrange(0, j - start + 1)) > u64::MAX) by (nonlinear_arith)
                    requires
                        v > (u64::MAX - dv) / 10,
                        digits_value(d.subrange(0, j - start + 1)) == v * 10 + dv,
                        dv <= 9,
                ;
                if all_digits(d) {
                    lemma_digits_mono(d, j - start + 1);
                }
            }
            return None;
        }
        v = v * 10 + dv;
        j = j + 1;
    }
    assert(d.subrange(0, d.len() as int) =~= d);
    Some(v)
}

/// The generations that the file names stand for, in the order of the names,
/// one for each name that stands for one.
pub open spec fn gens_of(names: Seq<String>) -> Seq<u64>
    decreases names.len(),
{
    if names.len() == 0 {
        Seq::empty()
    } else {
        match gen_of_name(names.last()@) {
            Some(g) => gens_of(names.drop_last()).push(g),
            None => gens_of(names.drop_last()),
        }
    }
}

/// The generations of the segment files among `names`, in ascending order,
/// one for each name that stands for one.
pub fn sorted_gen_list(names: &Vec<String>) -> (r: Vec<u64>)
    ensures
        forall|i: int, j: int| 0 <= i < j < r@.len() ==> r@[i] <= r@[j],
        r@.to_multiset() == gens_of(names@).to_multiset(),
{
    let mut r: Vec<u64> = Vec::new();
    let mut i: usize = 0;
    proof {
        assert(names@.take(0) =~= Seq::<String>::empty());
        assert(r@.to_multiset() =~= vstd::multiset::Multiset::<u64>::empty()) by {
            r@.to_multiset_ensures();
        }
    }
    while i < names.len()
        invariant
            i <= names@.len(),
            forall|a: int, b: int| 0 <= a < b < r@.len() ==> r@[a] <= r@[b],
            r@.to_multiset() == gens_of(names@.take(i as int)).to_multiset(),
        decreases names@.len() - i,
    {
        let ghost prev = r@;
        proof {
            assert(names@.take(i + 1).drop_last() =~= names@.take(i as int));
            assert(names@.take(i + 1).last() == names@[i as int]);
        }
        match parse_gen(names[i].as_str()) {
            None => {
                assert(gens_of(names@.take(i + 1)) == gens_of(names@.take(i as int)));
            },
            Some(g) => {
                assert(gens_of(names@.take(i + 1)) == gens_of(names@.take(i as int)).push(g));
                let mut p: usize = 0;
                while p < r.len() && r[p] <= g
                    invariant
                        r@ == prev,
                        p <= r@.len(),
                        forall|a: int| 0 <= a < p ==> r@[a] <= g,
                    decreases r@.len() - p,
                {
                    p = p + 1;
                }
                r.insert(p, g);
                assert(r@ == prev.insert(p as int, g));
                proof {
                    vstd::seq_lib::to_multiset_insert(prev, p as int, g);
                    vstd::seq_lib::to_multiset_build(gens_of(names@.take(i as int)), g);
                }
                assert(r@.to_multiset() == prev.to_multiset().insert(g));
                assert(gens_of(names@.take(i as int)).push(g).to_multiset() == gens_of(
                    names@.take(i as int),
                ).to_multiset().insert(g));
                assert forall|a: int, b: int| 0 <= a < b < r@.len() implies r@[a] <= r@[b] by {
                    if b < p {
                    } else if b == p {
                    } else if a < p {
                        assert(prev[p as int] > g);
                        assert(r@[b] == prev[b - 1]);
                    } else if a == p {
                        assert(prev[p as int] > g);
                        assert(r@[b] == prev[b - 1]);
                    } else {
                        assert(r@[a] == prev[a - 1]);
                        assert(r@[b] == prev[b - 1]);
                    }
                }
            },
        }
        i = i + 1;
    }
    proof {
        assert(names@.take(names@.len() as int) =~= names@);
    }
    r
}

} // verus!
