//! The order of books in the site: by book number, books with the same number
//! keeping the order in which they were read (a stable sort).
use vstd::prelude::*;
use crate::book::{Book, BookModel, book_models};

verus! {

pub open spec fn sorted_by_number(s: Seq<BookModel>) -> bool {
    forall|i: int, j: int| 0 <= i < j < s.len() ==> #[trigger] s[i].number <= #[trigger] s[j].number
}

/// `p` maps each position of `out` to a distinct position of `inp` that holds the
/// same book, and books with equal numbers keep their relative order.
pub open spec fn is_stable_placement(p: Seq<int>, out: Seq<BookModel>, inp: Seq<BookModel>) -> bool {
    &&& p.len() == out.len()
    &&& out.len() == inp.len()
    &&& forall|k: int| 0 <= k < p.len() ==> 0 <= #[trigger] p[k] < inp.len() && out[k] == inp[p[k]]
    &&& forall|k1: int, k2: int| 0 <= k1 < k2 < p.len() ==> #[trigger] p[k1] != #[trigger] p[k2]
    &&& forall|k1: int, k2: int|
        0 <= k1 < k2 < p.len() && (#[trigger] out[k1]).number == (#[trigger] out[k2]).number
            ==> p[k1] < p[k2]
}

/// `out` is `inp` sorted by book number, stably.
pub open spec fn is_stable_sort_by_number(out: Seq<BookModel>, inp: Seq<BookModel>) -> bool {
    &&& sorted_by_number(out)
    &&& exists|p: Seq<int>| is_stable_placement(p, out, inp)
}

/// The first position in `books` whose number is greater than `n`.
fn insertion_point(books: &Vec<Book>, n: u32) -> (k: usize)
    ensures
        k <= books@.len(),
        forall|j: int| 0 <= j < k ==> (#[trigger] books@[j]).number <= n,
        k < books@.len() ==> books@[k as int].number > n,
{
    let mut k: usize = 0;
    while k < books.len() && books[k].number <= n
        invariant
            k <= books@.len(),
            forall|j: int| 0 <= j < k ==> (#[trigger] books@[j]).number <= n,
        decreases books@.len() - k,
    {
        k = k + 1;
    }
    k
}

/// Sorts the books by number; books with the same number keep their order
/// (`sort_by_key` on the number).
pub fn sort_books_by_number(books: &mut Vec<Book>)
    ensures
        is_stable_sort_by_number(book_models(final(books)@), book_models(old(books)@)),
{
    let ghost orig = book_models(books@);
    let mut input: Vec<Book> = Vec::new();
    std::mem::swap(&mut input, books);
    let ghost mut p: Seq<int> = Seq::empty();
    let mut i: usize = 0;
    let n = input.len();
    assert(book_models(input@) =~= orig.skip(0));
    while i < n
        invariant
            n == orig.len(),
            0 <= i <= n,
            book_models(input@) == orig.skip(i as int),
            input@.len() == n - i,
            books@.len() == i,
            p.len() == i,
            sorted_by_number(book_models(books@)),
            forall|k: int| 0 <= k < i ==> 0 <= #[trigger] p[k] < i && book_models(books@)[k]
                == orig[p[k]],
            forall|k1: int, k2: int| 0 <= k1 < k2 < i ==> #[trigger] p[k1] != #[trigger] p[k2],
            forall|k1: int, k2: int|
                0 <= k1 < k2 < i && (#[trigger] book_models(books@)[k1]).number == (
                #[trigger] book_models(books@)[k2]).number ==> p[k1] < p[k2],
        decreases n - i,
    {
        let ghost out0 = book_models(books@);
        let ghost p0 = p;
        let ghost in0 = input@;
        let x = input.remove(0);
        assert(book_models(in0)[0] == in0[0]@);
        assert(in0[0]@ == orig[i as int]);
        assert forall|j: int| 0 <= j < input@.len() implies #[trigger] book_models(input@)[j]
            == orig.skip(i + 1)[j] by {
            assert(input@[j] == in0[j + 1]);
            assert(book_models(in0)[j + 1] == orig.skip(i as int)[j + 1]);
        }
        assert(book_models(input@) =~= orig.skip(i + 1));
        let k = insertion_point(books, x.number);
        let ghost xm = x@;
        books.insert(k, x);
        proof {
            let out1 = book_models(books@);
            assert(out1 =~= out0.insert(k as int, xm));
            p = p0.insert(k as int, i as int);
            assert forall|j: int| 0 <= j < k implies (#[trigger] out0[j]).number <= xm.number by {
                assert(out0[j] == books@[j]@);
            }
            if k < i {
                assert(out0[k as int].number > xm.number);
            }
            assert forall|j1: int, j2: int| 0 <= j1 < j2 < out1.len() implies #[trigger] out1[j1].number
                <= #[trigger] out1[j2].number by {
                if j2 < k {
                } else if j2 == k {
                } else if j1 < k {
                    assert(out0[j1].number <= out0[k as int].number);
                } else if j1 == k {
                    assert(out0[k as int].number <= out0[j2 - 1].number);
                } else {
                    assert(out1[j1] == out0[j1 - 1] && out1[j2] == out0[j2 - 1]);
                }
            }
            assert forall|j: int| 0 <= j < i + 1 implies 0 <= #[trigger] p[j] < i + 1 && out1[j]
                == orig[p[j]] by {
                if j < k {
                    assert(p[j] == p0[j]);
                } else if j > k {
                    assert(p[j] == p0[j - 1]);
                }
            }
            assert forall|j1: int, j2: int| 0 <= j1 < j2 < i + 1 implies #[trigger] p[j1]
                != #[trigger] p[j2] by {
                if j1 != k && j2 != k {
                    let a = if j1 < k { j1 } else { j1 - 1 };
                    let b = if j2 < k { j2 } else { j2 - 1 };
                    assert(p[j1] == p0[a] && p[j2] == p0[b]);
                } else if j1 == k {
                    assert(p[j2] == p0[j2 - 1]);
                } else {
                    assert(p[j1] == p0[j1]);
                }
            }
            assert forall|j1: int, j2: int|
                0 <= j1 < j2 < i + 1 && (#[trigger] out1[j1]).number == (#[trigger] out1[j2]).number
                implies p[j1] < p[j2] by {
                if j1 != k && j2 != k {
                    let a = if j1 < k { j1 } else { j1 - 1 };
                    let b = if j2 < k { j2 } else { j2 - 1 };
                    assert(p[j1] == p0[a] && p[j2] == p0[b]);
                    assert(out1[j1] == out0[a] && out1[j2] == out0[b]);
                } else if j1 == k {
                    assert(out0[k as int].number <= out0[j2 - 1].number);
                    assert(false);
                } else {
                    assert(p[j1] == p0[j1]);
                }
            }
            assert(sorted_by_number(out1));
        }
        i = i + 1;
    }
    proof {
        let out = book_models(books@);
        assert(is_stable_placement(p, out, orig));
    }
}

} // verus!
