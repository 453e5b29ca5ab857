//! Python version values as found in a registry's `SysVersion` field.
use vstd::prelude::*;
use vstd::string::*;

verus! {

/// A release version `major[.minor[.patch]]`; absent segments are zero.
#[derive(Clone, Copy, Debug, PartialEq, Eq, Structural)]
pub struct PythonVersion {
    pub major: u64,
    pub minor: u64,
    pub patch: u64,
}

pub open spec fn is_digit(c: char) -> bool {
    '0' <= c && c <= '9'
}

pub open spec fn digit_value(c: char) -> nat {
    ((c as u32) - ('0' as u32)) as nat
}

/// The decimal value of a digit string.
pub open spec fn number_value(s: Seq<char>) -> nat
    decreases s.len(),
{
    if s.len() == 0 {
        0
    } else {
        number_value(s.drop_last()) * 10 + digit_value(s.last())
    }
}

/// The pieces of `s` between dots (always at least one piece).
pub open spec fn split_dots(s: Seq<char>) -> Seq<Seq<char>>
    decreases s.len(),
{
    if s.len() == 0 {
        seq![Seq::empty()]
    } else {
        let r = split_dots(s.drop_last());
        if s.last() == '.' {
            r.push(Seq::empty())
        } else {
            r.update(r.len() - 1, r.last().push(s.last()))
        }
    }
}

/// A non-empty run of decimal digits whose value fits in 64 bits.
pub open spec fn valid_segment(p: Seq<char>) -> bool {
    &&& p.len() > 0
    &&& forall|k: int| 0 <= k < p.len() ==> is_digit(#[trigger] p[k])
    &&& number_value(p) <= u64::MAX
}

pub open spec fn segment_or_zero(parts: Seq<Seq<char>>, i: int) -> u64 {
    if i < parts.len() {
        number_value(parts[i]) as u64
    } else {
        0
    }
}

/// The version that a text denotes: one to three dot-separated decimal
/// segments, or `None` when the text is not of that form.
pub open spec fn version_of(s: Seq<char>) -> Option<PythonVersion> {
    let parts = split_dots(s);
    if 1 <= parts.len() <= 3 && forall|i: int| 0 <= i < parts.len() ==> valid_segment(
        #[trigger] parts[i],
    ) {
        Some(
            PythonVersion {
                major: segment_or_zero(parts, 0),
                minor: segment_or_zero(parts, 1),
                patch: segment_or_zero(parts, 2),
            },
        )
    } else {
        None
    }
}

/// `a` is a strictly newer release than `b`.
pub open spec fn newer(a: PythonVersion, b: PythonVersion) -> bool {
    a.major > b.major || (a.major == b.major && (a.minor > b.minor || (a.minor == b.minor
        && a.patch > b.patch)))
}

proof fn lemma_split_dots_nonempty(s: Seq<char>)
    ensures
        split_dots(s).len() >= 1,
    decreases s.len(),
{
    if s.len() > 0 {
        lemma_split_dots_nonempty(s.drop_last());
    }
}

/// What a scan of a prefix has established: either the text is already
/// beyond repair, or it is still a candidate version.
spec fn broken(parts: Seq<Seq<char>>) -> bool {
    let last = parts.last();
    ||| parts.len() > 3
    ||| exists|j: int| 0 <= j < parts.len() - 1 && !valid_segment(#[trigger] parts[j])
    ||| exists|k: int| 0 <= k < last.len() && !is_digit(#[trigger] last[k])
    ||| number_value(last) > u64::MAX
}

impl PythonVersion {
    /// Parses a text such as `3.12` or `3.11.5`.
    pub fn parse(text: &str) -> (r: Option<PythonVersion>)
        ensures
            r == version_of(text@),
    {
        let n = text.unicode_len();
        let ghost s = text@;
        let mut parts: Vec<u64> = Vec::new();
        let mut cur: u64 = 0;
        let mut cur_len: usize = 0;
        let mut bad = false;
        let mut i: usize = 0;
        proof {
            assert(s.take(0) =~= Seq::<char>::empty());
        }
        while i < n
            invariant
                n == s.len(),
                s == text@,
                0 <= i <= n,
                split_dots(s.take(i as int)).len() >= 1,
                bad ==> broken(split_dots(s.take(i as int))),
                !bad ==> ({
                    let sp = split_dots(s.take(i as int));
                    &&& parts@.len() + 1 == sp.len()
                    &&& parts@.len() <= 2
                    &&& cur_len <= i
                    &&& forall|j: int|
                        0 <= j < parts@.len() ==> valid_segment(#[trigger] sp[j])
                            && number_value(sp[j]) == parts@[j]
                    &&& sp.last().len() == cur_len
                    &&& forall|k: int| 0 <= k < sp.last().len() ==> is_digit(#[trigger] sp.last()[k])
                    &&& number_value(sp.last()) == cur
                }),
            decreases n - i,
        {
            let c = text.get_char(i);
            let ghost old_sp = split_dots(s.take(i as int));
            proof {
                assert(s.take(i + 1).drop_last() =~= s.take(i as int));
                lemma_split_dots_nonempty(s.take(i + 1));
            }
            let ghost sp = split_dots(s.take(i + 1));
            if bad {
                proof {
                    if c == '.' {
                        assert(sp =~= old_sp.push(Seq::empty()));
                        let last = old_sp.last();
                        if exists|k: int| 0 <= k < last.len() && !is_digit(#[trigger] last[k]) {
                            assert(!valid_segment(sp[old_sp.len() - 1]));
                        } else if number_value(last) > u64::MAX {
                            assert(!valid_segment(sp[old_sp.len() - 1]));
                        } else if old_sp.len() > 3 {
                        } else {
                            let j = choose|j: int|
                                0 <= j < old_sp.len() - 1 && !valid_segment(#[trigger] old_sp[j]);
                            assert(sp[j] == old_sp[j]);
                        }
                    } else {
                        let last = old_sp.last();
                        assert(sp.last() == last.push(c));
                        assert(sp.last().drop_last() =~= last);
                        if exists|j: int| 0 <= j < old_sp.len() - 1 && !valid_segment(#[trigger] old_sp[j]) {
                            let j = choose|j: int|
                                0 <= j < old_sp.len() - 1 && !valid_segment(#[trigger] old_sp[j]);
                            assert(sp[j] == old_sp[j]);
                        }
                        if exists|k: int| 0 <= k < last.len() && !is_digit(#[trigger] last[k]) {
                            let k = choose|k: int| 0 <= k < last.len() && !is_digit(#[trigger] last[k]);
                            assert(sp.last()[k] == last[k]);
                        }
                    }
                }
            } else if c == '.' {
                proof {
                    assert(sp =~= old_sp.push(Seq::empty()));
                    assert(sp[old_sp.len() - 1] == old_sp.last());
                }
                if cur_len == 0 || parts.len() == 2 {
                    bad = true;
                } else {
                    parts.push(cur);
                    cur = 0;
                    cur_len = 0;
                    proof {
                        assert forall|j: int| 0 <= j < parts@.len() implies valid_segment(
                            #[trigger] sp[j],
                        ) && number_value(sp[j]) == parts@[j] by {
                            if j < parts@.len() - 1 {
                                assert(sp[j] == old_sp[j]);
                            }
                        }
                    }
                }
            } else if '0' <= c && c <= '9' {
                let d = (c as u32 - '0' as u32) as u64;
                proof {
                    assert(sp.last() == old_sp.last().push(c));
                    assert(sp.last().drop_last() =~= old_sp.last());
                    assert(number_value(sp.last()) == cur * 10 + d);
                    assert forall|j: int| 0 <= j < parts@.len() implies valid_segment(
                        #[trigger] sp[j],
                    ) && number_value(sp[j]) == parts@[j] by {
                        assert(sp[j] == old_sp[j]);
                    }
                }
                if cur > (u64::MAX - d) / 10 {
                    bad = true;
                } else {
                    cur = cur * 10 + d;
                    cur_len = cur_len + 1;
                    proof {
                        assert forall|k: int| 0 <= k < sp.last().len() implies is_digit(
                            #[trigger] sp.last()[k],
                        ) by {
                            if k < old_sp.last().len() {
                                assert(sp.last()[k] == old_sp.last()[k]);
                            }
                        }
                    }
                }
            } else {
                proof {
                    assert(sp.last() == old_sp.last().push(c));
                    assert(sp.last()[sp.last().len() - 1] == c);
                }
                bad = true;
            }
            i = i + 1;
        }
        proof {
            assert(s.take(n as int) =~= s);
        }
        let ghost sp = split_dots(s);
        if bad || cur_len == 0 {
            proof {
                if bad {
                    if exists|j: int| 0 <= j < sp.len() - 1 && !valid_segment(#[trigger] sp[j]) {
                        let j = choose|j: int| 0 <= j < sp.len() - 1 && !valid_segment(#[trigger] sp[j]);
                    } else if sp.len() > 3 {
                    } else {
                        assert(!valid_segment(sp[sp.len() - 1]));
                    }
                } else {
                    assert(!valid_segment(sp[sp.len() - 1]));
                }
            }
            None
        } else {
            parts.push(cur);
            proof {
                assert forall|j: int| 0 <= j < sp.len() implies valid_segment(#[trigger] sp[j]) by {
                }
            }
            let major = parts[0];
            let minor = if parts.len() > 1 { parts[1] } else { 0 };
            let patch = if parts.len() > 2 { parts[2] } else { 0 };
            Some(PythonVersion { major, minor, patch })
        }
    }

    /// Whether `self` is a strictly newer release than `other`.
    pub fn is_newer_than(&self, other: &PythonVersion) -> (r: bool)
        ensures
            r == newer(*self, *other),
    {
        self.major > other.major || (self.major == other.major && (self.minor > other.minor || (
        self.minor == other.minor && self.patch > other.patch)))
    }
}

} // verus!
