//! What holds of every search.

use vstd::prelude::*;
use crate::chars::{is_whitespace, lemma_words, words};
use crate::document::matching;
use crate::node::NodeView;
use crate::order::precedes;
use crate::predicate::PredicateView;
use crate::seqs::{lemma_filter_agree, lemma_filter_member, lemma_filter_order, lemma_filter_twice};

verus! {

/// The test whether a path is one of `paths`.
pub open spec fn one_of(paths: Seq<Seq<int>>) -> spec_fn(Seq<int>) -> bool {
    |p: Seq<int>| paths.contains(p)
}

/// The test whether a path is one of `first` or one of `second`.
pub open spec fn one_of_either(first: Seq<Seq<int>>, second: Seq<Seq<int>>) -> spec_fn(
    Seq<int>,
) -> bool {
    |p: Seq<int>| first.contains(p) || second.contains(p)
}

/// A word that holds whitespace is none of the words of any value, and neither is the empty
/// word.
pub proof fn lemma_no_word_with_whitespace(value: Seq<char>, word: Seq<char>)
    requires
        word.len() == 0 || exists|k: int| 0 <= k < word.len() && is_whitespace(#[trigger] word[k]),
    ensures
        !words(value).contains(word),
{
    lemma_words(value, word);
}

impl NodeView {
    /// A search finds the elements of which the predicate holds, and no others. It lists
    /// them in document order, every element before its descendants and before what stands to
    /// its right, and so each of them once.
    pub proof fn lemma_find_in_document_order(self, predicate: PredicateView)
        ensures
            forall|p: Seq<int>| #[trigger]
                self.find(predicate).contains(p) <==> self.descend(p).is_some()
                    && predicate.holds(self, p),
            forall|i: int, j: int|
                0 <= i < j < self.find(predicate).len() ==> precedes(
                    #[trigger] self.find(predicate)[i],
                    #[trigger] self.find(predicate)[j],
                ),
            self.find(predicate).no_duplicates(),
    {
        let all = self.preorder();
        let test = matching(predicate, self);
        let found = self.find(predicate);
        self.lemma_preorder();
        assert forall|p: Seq<int>| #[trigger]
            found.contains(p) <==> self.descend(p).is_some() && predicate.holds(self, p) by {
            lemma_filter_member(all, test, p);
        }
        assert forall|i: int, j: int| 0 <= i < j < found.len() implies precedes(
            #[trigger] found[i],
            #[trigger] found[j],
        ) by {
            lemma_filter_order(all, test, i, j);
        }
        assert forall|i: int, j: int|
            0 <= i < found.len() && 0 <= j < found.len() && i != j implies found[i] != found[j] by {
            crate::order::lemma_precedes_irreflexive(found[i]);
            if i < j {
                assert(precedes(found[i], found[j]));
            } else {
                assert(precedes(found[j], found[i]));
            }
        }
    }

    /// To negate a predicate twice changes nothing of what a search finds.
    pub proof fn lemma_find_not_not(self, predicate: PredicateView)
        ensures
            self.find(PredicateView::Not(Box::new(PredicateView::Not(Box::new(predicate)))))
                == self.find(predicate),
    {
        let twice = PredicateView::Not(Box::new(PredicateView::Not(Box::new(predicate))));
        assert forall|p: Seq<int>| twice.holds(self, p) == predicate.holds(self, p) by {
            reveal_with_fuel(PredicateView::holds, 3);
        }
        lemma_filter_agree(
            self.preorder(),
            matching(twice, self),
            matching(predicate, self),
        );
    }

    /// A search for two predicates at once finds what the search for the first finds and the
    /// search for the second finds too, in the order of the first.
    pub proof fn lemma_find_and(self, first: PredicateView, second: PredicateView)
        ensures
            self.find(PredicateView::And(Box::new(first), Box::new(second))) == self.find(
                first,
            ).filter(one_of(self.find(second))),
    {
        let all = self.preorder();
        let both = PredicateView::And(Box::new(first), Box::new(second));
        let f = matching(first, self);
        let g = matching(second, self);
        let in_second = one_of(self.find(second));
        lemma_filter_twice(all, f, in_second);
        let kept = |p: Seq<int>| f(p) && in_second(p);
        assert forall|i: int| 0 <= i < all.len() implies matching(both, self)(#[trigger] all[i])
            == kept(all[i]) by {
            lemma_filter_member(all, g, all[i]);
        }
        lemma_filter_agree(all, matching(both, self), kept);
    }

    /// A search for one predicate or another finds what the search for the first finds
    /// together with what the search for the second finds: each such element once, and in
    /// document order, not one result after the other.
    pub proof fn lemma_find_or(self, first: PredicateView, second: PredicateView)
        ensures
            self.find(PredicateView::Or(Box::new(first), Box::new(second)))
                == self.preorder().filter(
                one_of_either(self.find(first), self.find(second)),
            ),
            forall|p: Seq<int>| #[trigger]
                self.find(PredicateView::Or(Box::new(first), Box::new(second))).contains(p) <==> (
                self.find(first).contains(p) || self.find(second).contains(p)),
    {
        let all = self.preorder();
        let either = PredicateView::Or(Box::new(first), Box::new(second));
        let f = matching(first, self);
        let g = matching(second, self);
        let in_either = one_of_either(self.find(first), self.find(second));
        assert forall|i: int| 0 <= i < all.len() implies matching(either, self)(
            #[trigger] all[i],
        ) == in_either(all[i]) by {
            lemma_filter_member(all, f, all[i]);
            lemma_filter_member(all, g, all[i]);
        }
        lemma_filter_agree(all, matching(either, self), in_either);
        assert forall|p: Seq<int>| #[trigger]
            self.find(either).contains(p) <==> (self.find(first).contains(p)
                || self.find(second).contains(p)) by {
            lemma_filter_member(all, matching(either, self), p);
            lemma_filter_member(all, f, p);
            lemma_filter_member(all, g, p);
        }
    }

    /// A search for a class name that holds whitespace finds nothing, whatever the document.
    pub proof fn lemma_find_class_with_whitespace(self, class: Seq<char>)
        requires
            exists|k: int| 0 <= k < class.len() && is_whitespace(#[trigger] class[k]),
        ensures
            self.find(PredicateView::Class(class)) == Seq::<Seq<int>>::empty(),
    {
        let all = self.preorder();
        let test = matching(PredicateView::Class(class), self);
        assert forall|i: int| 0 <= i < all.len() implies !test(#[trigger] all[i]) by {
            match self.descend(all[i]) {
                Some(node) => {
                    match node.attr("class"@) {
                        Some(value) => {
                            lemma_no_word_with_whitespace(value, class);
                        },
                        None => {},
                    }
                },
                None => {},
            }
        }
        all.lemma_all_neg_filter_empty(test);
    }
}

} // verus!
