use vstd::prelude::*;
use vstd::string::StringSliceAdditionalSpecFns;

use crate::tilemap::digits_value;

verus! {

pub open spec fn is_digit(c: u8) -> bool {
    48 <= c <= 57
}

/// `s..e` is the first run of ASCII digits in `b`, taken whole.
pub open spec fn first_digit_run(b: Seq<u8>, s: int, e: int) -> bool {
    &&& 0 <= s < e <= b.len()
    &&& forall|k: int| s <= k < e ==> #[trigger] is_digit(b[k])
    &&& forall|k: int| 0 <= k < s ==> !#[trigger] is_digit(b[k])
    &&& e == b.len() || !is_digit(b[e])
}

/// The frame number of a name with bytes `b`: the value of its first run of digits, if it has
/// one and the value fits in a `u32`.
pub open spec fn spec_frame_number(b: Seq<u8>) -> Option<nat> {
    if exists|s: int, e: int| first_digit_run(b, s, e) {
        let (s, e) = choose|s: int, e: int| first_digit_run(b, s, e);
        let v = digits_value(b.subrange(s, e));
        if v <= u32::MAX {
            Some(v)
        } else {
            None
        }
    } else {
        None
    }
}

pub proof fn lemma_first_digit_run_unique(b: Seq<u8>, s1: int, e1: int, s2: int, e2: int)
    requires
        first_digit_run(b, s1, e1),
        first_digit_run(b, s2, e2),
    ensures
        s1 == s2,
        e1 == e2,
{
    if s1 < s2 {
        assert(is_digit(b[s1]));
    } else if s2 < s1 {
        assert(is_digit(b[s2]));
    }
    if e1 < e2 {
        assert(is_digit(b[e1]));
    } else if e2 < e1 {
        assert(is_digit(b[e2]));
    }
}

/// Relies on regex::Regex::find with the pattern `[0-9]+`: the byte range of the leftmost
/// match, which is the first run of ASCII digits, taken whole (the repetition is greedy).
#[verifier::external_body]
fn find_number(name: &str) -> (r: Option<(usize, usize)>)
    ensures
        r matches Some((s, e)) ==> first_digit_run(name.spec_bytes(), s as int, e as int),
        r is None ==> forall|k: int|
            0 <= k < name.spec_bytes().len() ==> !#[trigger] is_digit(name.spec_bytes()[k]),
{
    match regex::Regex::new("[0-9]+") {
        Ok(number) => number.find(name).map(|m| (m.start(), m.end())),
        Err(_) => None,
    }
}

/// The frame number of an animation frame called `name`: the value of the first run of digits
/// in it.
pub fn frame_number(name: &str) -> (r: Option<u32>)
    ensures
        r matches Some(v) ==> spec_frame_number(name.spec_bytes()) == Some(v as nat),
        r is None ==> spec_frame_number(name.spec_bytes()) is None,
{
    let ghost b = name.spec_bytes();
    match find_number(name) {
        Some((s, e)) => {
            let bytes = name.as_bytes();
            proof {
                let (cs, ce) = choose|cs: int, ce: int| first_digit_run(b, cs, ce);
                lemma_first_digit_run_unique(b, s as int, e as int, cs, ce);
            }
            let ghost whole = digits_value(b.subrange(s as int, e as int));
            assert(spec_frame_number(b) == if whole <= u32::MAX {
                Some(whole)
            } else {
                None
            });
            let mut value: u32 = 0;
            let mut i: usize = s;
            while i < e
                invariant
                    bytes@ == b,
                    b == name.spec_bytes(),
                    first_digit_run(b, s as int, e as int),
                    s <= i <= e,
                    whole == digits_value(b.subrange(s as int, e as int)),
                    spec_frame_number(b) == if whole <= u32::MAX {
                        Some(whole)
                    } else {
                        None
                    },
                    value as nat == digits_value(b.subrange(s as int, i as int)),
                decreases e - i,
            {
                let digit = bytes[i];
                assert(is_digit(b[i as int]));
                assert(b.subrange(s as int, i + 1).drop_last() =~= b.subrange(s as int, i as int));
                assert(b.subrange(s as int, i + 1).last() == digit);
                let next = match value.checked_mul(10) {
                    Some(v) => v.checked_add((digit - 48) as u32),
                    None => None,
                };
                match next {
                    Some(v) => {
                        value = v;
                    },
                    None => {
                        proof {
                            let d = b.subrange(s as int, e as int);
                            assert forall|k: int| 0 <= k < d.len() implies #[trigger] is_digit(d[k]) by {
                                assert(is_digit(b[s + k]));
                            }
                            assert(digits_value(b.subrange(s as int, i + 1)) > u32::MAX);
                            lemma_digits_prefix(d, i + 1 - s);
                            assert(b.subrange(s as int, e as int).take(i + 1 - s) =~= b.subrange(
                                s as int,
                                i + 1,
                            ));
                        }
                        return None;
                    },
                }
                i = i + 1;
            }
            assert(b.subrange(s as int, e as int) =~= b.subrange(s as int, i as int));
            Some(value)
        },
        None => {
            assert(!exists|s: int, e: int| first_digit_run(b, s, e)) by {
                if exists|s: int, e: int| first_digit_run(b, s, e) {
                    let (s, e) = choose|s: int, e: int| first_digit_run(b, s, e);
                    assert(is_digit(b[s]));
                }
            }
            None
        },
    }
}

proof fn lemma_digits_prefix(d: Seq<u8>, j: int)
    requires
        0 <= j <= d.len(),
        forall|k: int| 0 <= k < d.len() ==> #[trigger] is_digit(d[k]),
    ensures
        digits_value(d.take(j)) <= digits_value(d),
    decreases d.len() - j,
{
    if j < d.len() {
        lemma_digits_prefix(d, j + 1);
        assert(d.take(j + 1).drop_last() =~= d.take(j));
    } else {
        assert(d.take(j) =~= d);
    }
}

/// The bytes of `s`.
pub open spec fn string_bytes(s: String) -> Seq<u8> {
    vstd::utf8::encode_utf8(s@)
}

/// Position `a` comes before position `b` in frame order: a smaller frame number, or the same
/// one and an earlier position.
pub open spec fn frame_before(keys: Seq<u32>, a: int, b: int) -> bool {
    keys[a] < keys[b] || (keys[a] == keys[b] && a < b)
}

/// The positions of `names` in frame order: by frame number, and by position among equal
/// numbers. None when a name has no frame number.
pub fn frame_order(names: &[String]) -> (r: Option<Vec<usize>>)
    ensures
        r is None <==> exists|i: int|
            0 <= i < names@.len() && spec_frame_number(string_bytes(#[trigger] names@[i])) is None,
        r matches Some(p) ==> {
            &&& p@.len() == names@.len()
            &&& p@.no_duplicates()
            &&& forall|k: int| 0 <= k < p@.len() ==> #[trigger] p@[k] < names@.len()
            &&& forall|a: int, b: int|
                0 <= a < b < p@.len() ==> spec_frame_number(string_bytes(names@[p@[a] as int]))->Some_0
                    < spec_frame_number(string_bytes(names@[p@[b] as int]))->Some_0 || (
                spec_frame_number(string_bytes(names@[p@[a] as int]))->Some_0 == spec_frame_number(
                    string_bytes(names@[p@[b] as int]),
                )->Some_0 && #[trigger] p@[a] < #[trigger] p@[b])
        },
{
    let n = names.len();
    let mut keys: Vec<u32> = Vec::new();
    let mut i: usize = 0;
    while i < n
        invariant
            n == names@.len(),
            i <= n,
            keys@.len() == i,
            forall|k: int|
                0 <= k < i ==> spec_frame_number(string_bytes(#[trigger] names@[k])) == Some(
                    keys@[k] as nat,
                ),
        decreases n - i,
    {
        match frame_number(names[i].as_str()) {
            Some(v) => {
                keys.push(v);
            },
            None => {
                return None;
            },
        }
        i = i + 1;
    }
    let mut order: Vec<usize> = Vec::new();
    let mut i: usize = 0;
    while i < n
        invariant
            n == names@.len(),
            keys@.len() == n,
            i <= n,
            order@.len() == i,
            order@.no_duplicates(),
            forall|k: int| 0 <= k < order@.len() ==> #[trigger] order@[k] < i,
            forall|a: int, b: int|
                0 <= a < b < order@.len() ==> frame_before(
                    keys@,
                    #[trigger] order@[a] as int,
                    #[trigger] order@[b] as int,
                ),
        decreases n - i,
    {
        let key = keys[i];
        let mut pos: usize = 0;
        while pos < order.len() && keys[order[pos]] <= key
            invariant
                n == names@.len(),
                keys@.len() == n,
                i < n,
                order@.len() == i,
                forall|k: int| 0 <= k < order@.len() ==> #[trigger] order@[k] < i,
                key == keys@[i as int],
                pos <= order@.len(),
                forall|t: int| 0 <= t < pos ==> keys@[#[trigger] order@[t] as int] <= key,
            decreases order@.len() - pos,
        {
            pos = pos + 1;
        }
        let ghost before = order@;
        order.insert(pos, i);
        proof {
            assert(order@ == before.insert(pos as int, i));
            assert forall|a: int, b: int|
                0 <= a < b < order@.len() implies frame_before(
                keys@,
                #[trigger] order@[a] as int,
                #[trigger] order@[b] as int,
            ) by {
                if b < pos {
                    assert(frame_before(keys@, before[a] as int, before[b] as int));
                } else if b == pos {
                    assert(keys@[before[a] as int] <= key);
                } else if a < pos {
                    assert(frame_before(keys@, before[a] as int, before[b - 1] as int));
                } else if a == pos {
                    assert(keys@[before[pos as int] as int] > key);
                    if b - 1 > pos {
                        assert(frame_before(keys@, before[pos as int] as int, before[b - 1] as int));
                    }
                } else {
                    assert(frame_before(keys@, before[a - 1] as int, before[b - 1] as int));
                }
            }
            assert forall|a: int, b: int|
                0 <= a < order@.len() && 0 <= b < order@.len() && a != b implies order@[a] != order@[b] by {
                if a != pos && b != pos {
                    let a0 = if a < pos { a } else { a - 1 };
                    let b0 = if b < pos { b } else { b - 1 };
                    assert(before[a0] != before[b0]);
                }
            }
        }
        i = i + 1;
    }
    proof {
        assert forall|a: int, b: int|
            0 <= a < b < order@.len() implies spec_frame_number(string_bytes(names@[order@[a] as int]))->Some_0
                < spec_frame_number(string_bytes(names@[order@[b] as int]))->Some_0 || (
            spec_frame_number(string_bytes(names@[order@[a] as int]))->Some_0 == spec_frame_number(
                string_bytes(names@[order@[b] as int]),
            )->Some_0 && #[trigger] order@[a] < #[trigger] order@[b]) by {
            assert(frame_before(keys@, order@[a] as int, order@[b] as int));
        }
    }
    Some(order)
}

} // verus!
