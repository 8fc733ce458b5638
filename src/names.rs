//! Which file names belong to the collection, and their order.
use vstd::prelude::*;
use vstd::multiset::Multiset;

verus! {

broadcast use vstd::seq_lib::group_to_multiset_ensures;

/// `c` is the ASCII letter `lower` in either case.
pub open spec fn is_letter(c: char, lower: char) -> bool {
    c == lower || (c as u32) + 32 == (lower as u32)
}

/// The name ends in `.jpg` or `.jpeg` in any case, after a non-empty stem,
/// and is not a resource-fork shadow (`._` at its start).
pub open spec fn is_image_name(name: Seq<char>) -> bool {
    let n = name.len();
    let jpg = n >= 5 && name[n - 4] == '.' && is_letter(name[n - 3], 'j') && is_letter(
        name[n - 2],
        'p',
    ) && is_letter(name[n - 1], 'g');
    let jpeg = n >= 6 && name[n - 5] == '.' && is_letter(name[n - 4], 'j') && is_letter(
        name[n - 3],
        'p',
    ) && is_letter(name[n - 2], 'e') && is_letter(name[n - 1], 'g');
    let shadow = n >= 2 && name[0] == '.' && name[1] == '_';
    (jpg || jpeg) && !shadow
}

fn letter_at(name: &str, i: usize, lower: char) -> (r: bool)
    requires
        i < name@.len(),
        'a' <= lower <= 'z',
    ensures
        r == is_letter(name@[i as int], lower),
{
    let c = name.get_char(i);
    c == lower || (c as u32) + 32 == (lower as u32)
}

/// Whether a file of this name is part of the collection.
pub fn file_name_is_relevant(name: &str) -> (r: bool)
    ensures
        r == is_image_name(name@),
{
    let n = name.unicode_len();
    let jpg = n >= 5 && name.get_char(n - 4) == '.' && letter_at(name, n - 3, 'j') && letter_at(
        name,
        n - 2,
        'p',
    ) && letter_at(name, n - 1, 'g');
    let jpeg = n >= 6 && name.get_char(n - 5) == '.' && letter_at(name, n - 4, 'j') && letter_at(
        name,
        n - 3,
        'p',
    ) && letter_at(name, n - 2, 'e') && letter_at(name, n - 1, 'g');
    let shadow = n >= 2 && name.get_char(0) == '.' && name.get_char(1) == '_';
    (jpg || jpeg) && !shadow
}

/// `a` and `b` agree on their first `i` characters.
pub open spec fn agree_until(a: Seq<char>, b: Seq<char>, i: int) -> bool {
    forall|k: int| 0 <= k < i ==> a[k] == b[k]
}

/// `a` and `b` first differ at `i`, where `a` ends or has the lower character.
pub open spec fn lower_at(a: Seq<char>, b: Seq<char>, i: int) -> bool {
    &&& 0 <= i <= a.len()
    &&& i < b.len()
    &&& agree_until(a, b, i)
    &&& (i == a.len() || (a[i] as int) < (b[i] as int))
}

/// `a` comes strictly before `b` in lexicographic order of code points,
/// which is the order of their UTF-8 bytes.
pub open spec fn name_lt(a: Seq<char>, b: Seq<char>) -> bool {
    exists|i: int| lower_at(a, b, i)
}

/// Each name is no later than the next one.
pub open spec fn sorted_names(s: Seq<String>) -> bool {
    forall|i: int| 0 <= i < s.len() - 1 ==> !name_lt(s[i + 1]@, (#[trigger] s[i])@)
}

pub proof fn lemma_name_lt_asymmetric(a: Seq<char>, b: Seq<char>)
    ensures
        !(name_lt(a, b) && name_lt(b, a)),
{
    if name_lt(a, b) && name_lt(b, a) {
        let i = choose|i: int| lower_at(a, b, i);
        let j = choose|j: int| lower_at(b, a, j);
        if i < j {
            assert(b[i] == a[i]);
        } else if j < i {
            assert(a[j] == b[j]);
        }
    }
}

proof fn lemma_name_lt_total_from(a: Seq<char>, b: Seq<char>, i: int)
    requires
        a != b,
        0 <= i <= a.len(),
        i <= b.len(),
        agree_until(a, b, i),
    ensures
        name_lt(a, b) || name_lt(b, a),
    decreases a.len() - i,
{
    if i == a.len() && i == b.len() {
        assert(a =~= b);
    } else if i == a.len() {
        assert(lower_at(a, b, i));
    } else if i == b.len() {
        assert(lower_at(b, a, i));
    } else if a[i] != b[i] {
        if (a[i] as int) < (b[i] as int) {
            assert(lower_at(a, b, i));
        } else {
            assert((b[i] as int) < (a[i] as int));
            assert(lower_at(b, a, i));
        }
    } else {
        lemma_name_lt_total_from(a, b, i + 1);
    }
}

/// Of two different names, one comes strictly before the other.
pub proof fn lemma_name_lt_total(a: Seq<char>, b: Seq<char>)
    requires
        a != b,
    ensures
        name_lt(a, b) || name_lt(b, a),
{
    lemma_name_lt_total_from(a, b, 0);
}

/// Whether `a` comes strictly before `b`.
pub fn name_less(a: &str, b: &str) -> (r: bool)
    ensures
        r == name_lt(a@, b@),
{
    let la = a.unicode_len();
    let lb = b.unicode_len();
    let mut i: usize = 0;
    while i < la && i < lb && a.get_char(i) == b.get_char(i)
        invariant
            i <= la,
            i <= lb,
            la == a@.len(),
            lb == b@.len(),
            agree_until(a@, b@, i as int),
        decreases la - i,
    {
        i = i + 1;
    }
    if i < lb && (i == la || (a.get_char(i) as u32) < (b.get_char(i) as u32)) {
        assert(lower_at(a@, b@, i as int));
        true
    } else {
        proof {
            if name_lt(a@, b@) {
                let j = choose|j: int| lower_at(a@, b@, j);
                if j < i {
                    assert(a@[j] == b@[j]);
                } else if j > i {
                    assert(a@[i as int] == b@[i as int]);
                }
            }
        }
        false
    }
}

/// Puts the names in order.
pub fn sort_names(names: &mut Vec<String>)
    ensures
        sorted_names(final(names)@),
        final(names)@.to_multiset() == old(names)@.to_multiset(),
{
    let mut sorted: Vec<String> = Vec::new();
    while names.len() > 0
        invariant
            sorted_names(sorted@),
            sorted@.to_multiset().add(names@.to_multiset()) == old(names)@.to_multiset(),
        decreases names@.len(),
    {
        let ghost before = names@;
        let x = names.pop().unwrap();
        assert(before =~= names@.push(x));
        let mut p: usize = 0;
        while p < sorted.len() && name_less(sorted[p].as_str(), x.as_str())
            invariant
                p <= sorted@.len(),
                forall|q: int| 0 <= q < p ==> name_lt(sorted@[q]@, x@),
            decreases sorted@.len() - p,
        {
            p = p + 1;
        }
        let ghost old_sorted = sorted@;
        assert(p < old_sorted.len() ==> !name_lt(old_sorted[p as int]@, x@));
        sorted.insert(p, x);
        proof {
            let s = sorted@;
            assert forall|i: int| 0 <= i < s.len() - 1 implies !name_lt(s[i + 1]@, (#[trigger] s[i])@) by {
                if i + 1 < p {
                    assert(s[i] == old_sorted[i] && s[i + 1] == old_sorted[i + 1]);
                } else if i + 1 == p {
                    assert(s[i] == old_sorted[i] && s[i + 1] == x);
                    lemma_name_lt_asymmetric(old_sorted[i]@, x@);
                } else if i == p {
                    assert(s[i] == x && s[i + 1] == old_sorted[i]);
                } else {
                    assert(s[i] == old_sorted[i - 1] && s[i + 1] == old_sorted[i]);
                }
            }
            assert(s.remove(p as int) =~= old_sorted);
            assert(s.to_multiset().remove(x) =~= old_sorted.to_multiset());
            assert(s.to_multiset() =~= old_sorted.to_multiset().insert(x));
            assert(s.to_multiset().add(names@.to_multiset()) =~= old_sorted.to_multiset().add(
                before.to_multiset(),
            ));
        }
    }
    assert(names@.to_multiset() =~= Multiset::<String>::empty());
    assert(sorted@.to_multiset().add(names@.to_multiset()) =~= sorted@.to_multiset());
    *names = sorted;
}

} // verus!
