//! There are only finitely many grids of a given shape.

use vstd::prelude::*;
use vstd::set_lib::{lemma_set_subset_finite, FiniteFull};

verus! {

/// The sequences of `n` items drawn from `alphabet`.
pub open spec fn words<T>(alphabet: Set<T>, n: nat) -> Set<Seq<T>> {
    Set::new(
        |s: Seq<T>| s.len() == n && forall|i: int| 0 <= i < n ==> alphabet.contains(#[trigger] s[i]),
    )
}

/// The operation that appends an item to `s`.
pub open spec fn appender<T>(s: Seq<T>) -> spec_fn(T) -> Seq<T> {
    |a: T| s.push(a)
}

/// The sequences that are `s` with one more item of `alphabet`.
pub open spec fn extensions<T>(alphabet: Set<T>, s: Seq<T>) -> Set<Seq<T>> {
    alphabet.map(appender(s))
}

/// Over a finite alphabet there are finitely many sequences of each length.
pub proof fn lemma_words_finite<T>(alphabet: Set<T>, n: nat)
    requires
        alphabet.finite(),
    ensures
        words(alphabet, n).finite(),
    decreases n,
{
    if n == 0 {
        assert(words(alphabet, 0) =~= set![Seq::<T>::empty()]) by {
            assert forall|s: Seq<T>| words(alphabet, 0).contains(s) implies s
                == Seq::<T>::empty() by {
                assert(s =~= Seq::<T>::empty());
            }
        }
    } else {
        let shorter = words(alphabet, (n - 1) as nat);
        lemma_words_finite(alphabet, (n - 1) as nat);
        let extend = |s: Seq<T>| extensions(alphabet, s);
        let family = shorter.map(extend);
        shorter.lemma_map_finite(extend);
        assert forall|t: Set<Seq<T>>| family.contains(t) implies #[trigger] t.finite() by {
            let s = choose|s: Seq<T>| shorter.contains(s) && extend(s) == t;
            alphabet.lemma_map_finite(appender(s));
        }
        family.lemma_flatten_finite();
        assert forall|w: Seq<T>| words(alphabet, n).contains(w) implies family.flatten().contains(
            w,
        ) by {
            let s = w.drop_last();
            let a = w.last();
            assert forall|i: int| 0 <= i < s.len() implies alphabet.contains(#[trigger] s[i]) by {
                assert(s[i] == w[i]);
            }
            assert(shorter.contains(s));
            assert(alphabet.contains(w[n - 1]));
            assert(w =~= s.push(a));
            assert(appender(s)(a) == w);
            assert(extensions(alphabet, s).contains(w));
            assert(family.contains(extend(s)));
        }
        lemma_set_subset_finite(family.flatten(), words(alphabet, n));
    }
}

/// The grids of `height` rows and `width` columns, as sequences of rows.
pub open spec fn boards(width: nat, height: nat) -> Set<Seq<Seq<u8>>> {
    Set::new(
        |rows: Seq<Seq<u8>>|
            rows.len() == height && forall|r: int|
                0 <= r < height ==> (#[trigger] rows[r]).len() == width,
    )
}

/// There are finitely many grids of each shape.
pub proof fn lemma_boards_finite(width: nat, height: nat)
    ensures
        boards(width, height).finite(),
{
    let colors = Set::<u8>::full();
    <u8 as FiniteFull>::full_properties();
    lemma_words_finite(colors, width);
    let lines = words(colors, width);
    lemma_words_finite(lines, height);
    assert forall|rows: Seq<Seq<u8>>| boards(width, height).contains(rows) implies words(
        lines,
        height,
    ).contains(rows) by {
        assert forall|r: int| 0 <= r < height implies lines.contains(#[trigger] rows[r]) by {
            assert forall|c: int| 0 <= c < width implies colors.contains(#[trigger] rows[r][c]) by {}
        }
    }
    lemma_set_subset_finite(words(lines, height), boards(width, height));
}

} // verus!
