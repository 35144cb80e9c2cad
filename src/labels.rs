//! Splitting a domain name into its labels, and the reversed label sequence
//! under which the routing tries file a name.
use vstd::prelude::*;
use vstd::string::*;

verus! {

/// The labels of `s[start..]`, where `s[start..i]` is known to hold no dot:
/// the maximal runs of characters other than `.`, empty runs dropped.
pub open spec fn labels_from(s: Seq<char>, start: int, i: int) -> Seq<Seq<char>>
    decreases s.len() - i,
{
    if i >= s.len() {
        if start < s.len() {
            seq![s.subrange(start, s.len() as int)]
        } else {
            Seq::empty()
        }
    } else if s[i] == '.' {
        let head = if start < i {
            seq![s.subrange(start, i)]
        } else {
            Seq::<Seq<char>>::empty()
        };
        head + labels_from(s, i + 1, i + 1)
    } else {
        labels_from(s, start, i + 1)
    }
}

/// The labels of a domain name, in the order in which they are written.
pub open spec fn domain_labels(s: Seq<char>) -> Seq<Seq<char>> {
    labels_from(s, 0, 0)
}

/// The labels of a domain name, last label first: the key of the name in a trie.
pub open spec fn domain_path(s: Seq<char>) -> Seq<Seq<char>> {
    let l = domain_labels(s);
    Seq::new(l.len(), |k: int| l[l.len() - 1 - k])
}

/// The character sequences of a vector of strings.
pub open spec fn strings_view(v: Seq<String>) -> Seq<Seq<char>> {
    v.map_values(|x: String| x@)
}

/// Splits `domain` on `.`, drops empty labels and reverses the order.
pub fn domain_path_of(domain: &str) -> (path: Vec<String>)
    ensures
        strings_view(path@) == domain_path(domain@),
{
    let n = domain.unicode_len();
    let mut labels: Vec<String> = Vec::new();
    let mut start: usize = 0;
    let mut i: usize = 0;
    while i < n
        invariant
            n == domain@.len(),
            start <= i <= n,
            strings_view(labels@) + labels_from(domain@, start as int, i as int)
                == domain_labels(domain@),
        decreases n - i,
    {
        let c = domain.get_char(i);
        if c == '.' {
            let ghost before = strings_view(labels@);
            let ghost rest = labels_from(domain@, (i + 1) as int, (i + 1) as int);
            if start < i {
                let label = domain.substring_char(start, i).to_owned();
                labels.push(label);
                assert(strings_view(labels@) == before + seq![domain@.subrange(start as int, i as int)]);
                assert(before + (seq![domain@.subrange(start as int, i as int)] + rest)
                    == strings_view(labels@) + rest);
            } else {
                assert(strings_view(labels@) == before);
                assert(Seq::<Seq<char>>::empty() + rest == rest);
            }
            start = i + 1;
        }
        i = i + 1;
    }
    if start < n {
        let label = domain.substring_char(start, n).to_owned();
        let ghost before = strings_view(labels@);
        labels.push(label);
        assert(strings_view(labels@) == before + seq![domain@.subrange(start as int, n as int)]);
    } else {
        assert(strings_view(labels@) + Seq::<Seq<char>>::empty() == strings_view(labels@));
    }
    let ghost all = strings_view(labels@);
    assert(all == domain_labels(domain@));
    let mut path: Vec<String> = Vec::new();
    let mut k: usize = labels.len();
    while k > 0
        invariant
            k <= labels@.len(),
            strings_view(labels@) == all,
            path@.len() == labels@.len() - k,
            forall|j: int|
                0 <= j < path@.len() ==> #[trigger] path@[j]@ == all[all.len() - 1 - j],
        decreases k,
    {
        k = k - 1;
        let label = labels[k].clone();
        path.push(label);
    }
    assert(strings_view(path@) == domain_path(domain@));
    path
}

} // verus!
