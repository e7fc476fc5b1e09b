use crate::engine::data::{
    Bullet, List, Question, QuestionRef, QuestionStore, QuestionVariant, QuestionView, Section, Term,
    VariantView,
};
use crate::engine::text::clone_texts;
use vstd::prelude::*;

verus! {

/// Notes as they are read and written: a named node that holds its
/// questions itself, and the nodes below it.
#[derive(Debug)]
pub struct Outline {
    pub name: String,
    pub questions: Vec<Question>,
    pub children: Vec<Outline>,
}

/// Notes as mathematical values.
pub struct OutlineView {
    pub name: Seq<char>,
    pub questions: Seq<QuestionView>,
    pub children: Seq<OutlineView>,
}

impl View for Outline {
    type V = OutlineView;

    open spec fn view(&self) -> OutlineView {
        self.as_values()
    }
}

impl Outline {
    /// The notes as mathematical values.
    pub open spec fn as_values(&self) -> OutlineView
        decreases self, self.children.len() + 1,
    {
        OutlineView {
            name: self.name@,
            questions: Seq::new(self.questions.len() as nat, |i: int| self.questions[i]@),
            children: self.values_upto(self.children.len() as nat),
        }
    }

    /// The first `k` nodes below this one as mathematical values.
    pub open spec fn values_upto(&self, k: nat) -> Seq<OutlineView>
        decreases self, k,
    {
        if k == 0 || k > self.children.len() {
            Seq::empty()
        } else {
            self.values_upto((k - 1) as nat).push(self.children[k - 1].as_values())
        }
    }

    /// The values of the first `k` nodes are `k` values, one for each node.
    pub proof fn lemma_values_upto(&self, k: nat)
        requires
            k <= self.children.len(),
        ensures
            self.values_upto(k).len() == k,
            forall|j: int| 0 <= j < k ==> #[trigger] self.values_upto(k)[j] == self.children[j]@,
        decreases k,
    {
        if k > 0 {
            self.lemma_values_upto((k - 1) as nat);
        }
    }
}

/// What notes say, whatever the statistics of their questions: the name of
/// a node, what its questions ask, and the same of the nodes below it.
pub struct Draft {
    pub name: Seq<char>,
    pub questions: Seq<VariantView>,
    pub children: Seq<Draft>,
}

impl OutlineView {
    /// What the notes say.
    pub open spec fn draft(self) -> Draft
        decreases self,
    {
        Draft {
            name: self.name,
            questions: Seq::new(self.questions.len(), |i: int| self.questions[i].data),
            children: Self::drafts_upto(self.children, self.children.len()),
        }
    }

    /// What the first `k` nodes of a list say.
    pub open spec fn drafts_upto(nodes: Seq<OutlineView>, k: nat) -> Seq<Draft>
        decreases nodes, k,
    {
        if k == 0 || k > nodes.len() {
            Seq::empty()
        } else {
            Self::drafts_upto(nodes, (k - 1) as nat).push(nodes[k - 1].draft())
        }
    }

    /// What a list of nodes says.
    pub open spec fn drafts(nodes: Seq<OutlineView>) -> Seq<Draft> {
        Self::drafts_upto(nodes, nodes.len())
    }

    /// None of the questions of the notes was ever asked.
    pub open spec fn pristine(self) -> bool
        decreases self,
    {
        &&& forall|i: int| 0 <= i < self.questions.len() ==> (#[trigger] self.questions[i]).is_fresh()
        &&& forall|j: int| 0 <= j < self.children.len() ==> (#[trigger] self.children[j]).pristine()
    }

    /// What a list of nodes says does not change for the nodes it had when
    /// one more node is put behind them, and says of that node what the node
    /// says.
    pub proof fn lemma_drafts_push(nodes: Seq<OutlineView>, node: OutlineView)
        ensures
            Self::drafts(nodes.push(node)) == Self::drafts(nodes).push(node.draft()),
    {
        Self::lemma_drafts_prefix(nodes, node, nodes.len());
        assert(nodes.push(node)[nodes.len() as int] == node);
    }

    /// What the first `k` nodes of a list say does not change when one more
    /// node is put behind the list.
    pub proof fn lemma_drafts_prefix(nodes: Seq<OutlineView>, node: OutlineView, k: nat)
        requires
            k <= nodes.len(),
        ensures
            Self::drafts_upto(nodes.push(node), k) == Self::drafts_upto(nodes, k),
        decreases k,
    {
        if k > 0 {
            Self::lemma_drafts_prefix(nodes, node, (k - 1) as nat);
            assert(nodes.push(node)[k - 1] == nodes[k - 1]);
        }
    }

    /// All questions of the notes: those of the node, then those of each
    /// node below it, depth first.
    pub open spec fn flat(self) -> Seq<QuestionView>
        decreases self,
    {
        self.questions + Self::flat_upto(self.children, self.children.len())
    }

    /// All questions of the first `k` nodes of a list.
    pub open spec fn flat_upto(nodes: Seq<OutlineView>, k: nat) -> Seq<QuestionView>
        decreases nodes, k,
    {
        if k == 0 || k > nodes.len() {
            Seq::empty()
        } else {
            Self::flat_upto(nodes, (k - 1) as nat) + nodes[k - 1].flat()
        }
    }
}

impl Question {
    /// A copy of the question, with its identifier and its statistics.
    pub fn duplicate(&self) -> (copy: Question)
        ensures
            copy@ == self@,
    {
        let data = match &self.data {
            QuestionVariant::Term(t) => QuestionVariant::Term(
                Term {
                    term: t.term.clone(),
                    definition: t.definition.clone(),
                    inverted: t.inverted,
                },
            ),
            QuestionVariant::List(l) => QuestionVariant::List(
                List { order: l.order, item: l.item.clone(), details: clone_texts(&l.details) },
            ),
            QuestionVariant::Bullet(b) => QuestionVariant::Bullet(Bullet { body: b.body.clone() }),
        };
        Question {
            id: self.id,
            data,
            comp_level: self.comp_level,
            mastery: self.mastery,
            correct: self.correct,
            seen: self.seen,
            hints: self.hints,
            last_correct: self.last_correct,
        }
    }
}

impl Clone for Section {
    /// A copy of the tree, with the same handles.
    fn clone(&self) -> (copy: Self)
        ensures
            forall|store: Seq<QuestionView>| #[trigger] copy.content(store) == self.content(store),
            forall|len: nat| #[trigger] copy.fits(len) == self.fits(len),
        decreases self,
    {
        let mut questions: Vec<QuestionRef> = Vec::new();
        let mut i: usize = 0;
        while i < self.questions.len()
            invariant
                i <= self.questions.len(),
                questions@ == self.questions@.take(i as int),
            decreases self.questions.len() - i,
        {
            questions.push(self.questions[i]);
            assert(questions@ =~= self.questions@.take(i + 1));
            i += 1;
        }
        assert(self.questions@.take(i as int) =~= self.questions@);
        let mut children: Vec<Section> = Vec::new();
        let mut k: usize = 0;
        while k < self.children.len()
            invariant
                k <= self.children.len(),
                children.len() == k,
                forall|j: int, store: Seq<QuestionView>|
                    0 <= j < k ==> #[trigger] children[j].content(store)
                        == self.children[j].content(store),
                forall|j: int, len: nat|
                    0 <= j < k ==> #[trigger] children[j].fits(len) == self.children[j].fits(len),
            decreases self.children.len() - k,
        {
            children.push(self.children[k].clone());
            k += 1;
        }
        let copy = Section { name: self.name.clone(), questions, children };
        proof {
            assert forall|store: Seq<QuestionView>| #[trigger]
                copy.content(store) == self.content(store) by {
                copy.lemma_contents_upto(store, copy.children.len() as nat);
                self.lemma_contents_upto(store, self.children.len() as nat);
                assert(copy.content(store).questions =~= self.content(store).questions);
                assert(copy.content(store).children =~= self.content(store).children);
            }
            assert forall|len: nat| #[trigger] copy.fits(len) == self.fits(len) by {
                if self.fits(len) {
                    assert forall|j: int| 0 <= j < copy.children.len() implies (
                    #[trigger] copy.children[j]).fits(len) by {
                        assert(self.children[j].fits(len));
                    }
                }
                if copy.fits(len) {
                    assert forall|j: int| 0 <= j < self.children.len() implies (
                    #[trigger] self.children[j]).fits(len) by {
                        assert(copy.children[j].fits(len));
                    }
                }
            }
        }
        copy
    }
}

impl Section {
    /// What the tree holds, the questions taken from a store: the notes
    /// that the tree stands for.
    pub open spec fn content(&self, store: Seq<QuestionView>) -> OutlineView
        decreases self, self.children.len() + 1,
    {
        OutlineView {
            name: self.name@,
            questions: Seq::new(
                self.questions.len() as nat,
                |i: int| store[self.questions[i].index as int],
            ),
            children: self.contents_upto(store, self.children.len() as nat),
        }
    }

    /// What the first `k` trees below this one hold.
    pub open spec fn contents_upto(&self, store: Seq<QuestionView>, k: nat) -> Seq<OutlineView>
        decreases self, k,
    {
        if k == 0 || k > self.children.len() {
            Seq::empty()
        } else {
            self.contents_upto(store, (k - 1) as nat).push(
                self.children[k - 1].content(store),
            )
        }
    }

    /// The contents of the first `k` trees are `k` notes, one for each tree.
    pub proof fn lemma_contents_upto(&self, store: Seq<QuestionView>, k: nat)
        requires
            k <= self.children.len(),
        ensures
            self.contents_upto(store, k).len() == k,
            forall|j: int|
                0 <= j < k ==> #[trigger] self.contents_upto(store, k)[j]
                    == self.children[j].content(store),
        decreases k,
    {
        if k > 0 {
            self.lemma_contents_upto(store, (k - 1) as nat);
        }
    }

    /// What a tree holds does not change when questions are added to the
    /// store.
    pub proof fn lemma_content_stable(&self, store: Seq<QuestionView>, more: Seq<QuestionView>)
        requires
            self.fits(store.len()),
        ensures
            self.content(store + more) == self.content(store),
            self.fits((store + more).len()),
        decreases self,
    {
        assert forall|i: int| 0 <= i < self.children.len() implies (
        #[trigger] self.children[i]).content(store + more) == self.children[i].content(store)
            && self.children[i].fits((store + more).len()) by {
            self.children[i].lemma_content_stable(store, more);
        }
        self.lemma_contents_upto(store, self.children.len() as nat);
        self.lemma_contents_upto(store + more, self.children.len() as nat);
        assert(self.content(store + more).questions =~= self.content(store).questions);
        assert(self.content(store + more).children =~= self.content(store).children);
    }

    /// Writes the tree out as notes that hold their questions themselves.
    pub fn outline(&self, store: &QuestionStore) -> (notes: Outline)
        requires
            self.fits(store@.len()),
        ensures
            notes@ == self.content(store@),
        decreases self,
    {
        let mut questions: Vec<Question> = Vec::new();
        let mut i: usize = 0;
        while i < self.questions.len()
            invariant
                i <= self.questions.len(),
                self.fits(store@.len()),
                questions.len() == i,
                forall|k: int|
                    0 <= k < i ==> (#[trigger] questions[k])@
                        == store@[self.questions[k].index as int],
            decreases self.questions.len() - i,
        {
            let r = self.questions[i];
            assert(store@[r.index as int] == store.questions[r.index as int]@);
            questions.push(store.questions[r.index].duplicate());
            i += 1;
        }
        let mut children: Vec<Outline> = Vec::new();
        let mut k: usize = 0;
        while k < self.children.len()
            invariant
                k <= self.children.len(),
                self.fits(store@.len()),
                children.len() == k,
                forall|j: int|
                    0 <= j < k ==> (#[trigger] children[j])@ == self.children[j].content(store@),
            decreases self.children.len() - k,
        {
            children.push(self.children[k].outline(store));
            k += 1;
        }
        let notes = Outline { name: self.name.clone(), questions, children };
        proof {
            notes.lemma_view();
            self.lemma_contents_upto(store@, self.children.len() as nat);
            assert(notes@.questions =~= self.content(store@).questions);
            assert(notes@.children =~= self.content(store@).children);
        }
        notes
    }
}

/// What a list of notes is as values.
pub open spec fn outline_views(notes: Seq<Outline>) -> Seq<OutlineView> {
    Seq::new(notes.len(), |i: int| notes[i]@)
}

impl Outline {
    /// What the notes are as values, part by part.
    pub proof fn lemma_view(&self)
        ensures
            self@.name == self.name@,
            self@.questions.len() == self.questions.len(),
            forall|i: int|
                0 <= i < self.questions.len() ==> #[trigger] self@.questions[i]
                    == self.questions[i]@,
            self@.children.len() == self.children.len(),
            forall|j: int|
                0 <= j < self.children.len() ==> #[trigger] self@.children[j]
                    == self.children[j]@,
    {
        self.lemma_values_upto(self.children.len() as nat);
    }

    /// Notes with a name, the notes below them, and their own questions.
    pub fn new(name: String, children: Vec<Outline>, questions: Vec<Question>) -> (notes: Outline)
        ensures
            notes.name == name,
            notes.children == children,
            notes.questions == questions,
    {
        Outline { name, children, questions }
    }

    /// Takes the notes into a store: each question gets a place of its own
    /// behind those that the store holds, the questions of a node first and
    /// then those of the nodes below it, and the tree that comes back holds
    /// what the notes hold.
    pub fn plant(&self, store: &mut QuestionStore) -> (tree: Section)
        ensures
            final(store)@ == old(store)@ + self@.flat(),
            tree.fits(final(store)@.len()),
            tree.content(final(store)@) == self@,
        decreases self,
    {
        let mut questions: Vec<QuestionRef> = Vec::new();
        let mut i: usize = 0;
        while i < self.questions.len()
            invariant
                i <= self.questions.len(),
                questions.len() == i,
                store@ == old(store)@ + self@.questions.take(i as int),
                forall|k: int|
                    0 <= k < i ==> (#[trigger] questions[k]).index == old(store)@.len() + k,
            decreases self.questions.len() - i,
        {
            let ghost before = store@;
            let r = store.insert(self.questions[i].duplicate());
            questions.push(r);
            assert(self@.questions[i as int] == self.questions[i as int]@);
            assert(store@ =~= old(store)@ + self@.questions.take(i + 1));
            i += 1;
        }
        assert(self@.questions.take(i as int) =~= self@.questions);
        let mut children: Vec<Section> = Vec::new();
        let mut k: usize = 0;
        proof {
            self.lemma_view();
        }
        assert(store@ =~= old(store)@ + (self@.questions + OutlineView::flat_upto(
            self@.children,
            0,
        )));
        while k < self.children.len()
            invariant
                k <= self.children.len(),
                children.len() == k,
                questions.len() == self.questions.len(),
                self@.children.len() == self.children.len(),
                forall|j: int|
                    0 <= j < self.children.len() ==> #[trigger] self@.children[j]
                        == self.children[j]@,
                forall|j: int|
                    0 <= j < questions.len() ==> (#[trigger] questions[j]).index == old(
                        store,
                    )@.len() + j,
                store@ == old(store)@ + (self@.questions + OutlineView::flat_upto(
                    self@.children,
                    k as nat,
                )),
                forall|j: int|
                    0 <= j < k ==> (#[trigger] children[j]).fits(store@.len()) && children[j].content(
                        store@,
                    ) == self.children[j]@,
            decreases self.children.len() - k,
        {
            let ghost before = store@;
            let child = self.children[k].plant(store);
            let ghost grown = self.children[k as int]@.flat();
            proof {
                assert(self@.children[k as int] == self.children[k as int]@);
                assert(store@ == before + grown);
                assert forall|j: int| 0 <= j < k implies (#[trigger] children[j]).fits(store@.len())
                    && children[j].content(store@) == self.children[j]@ by {
                    children[j].lemma_content_stable(before, grown);
                }
                assert(OutlineView::flat_upto(self@.children, (k + 1) as nat)
                    == OutlineView::flat_upto(self@.children, k as nat) + grown);
                assert(store@ =~= old(store)@ + (self@.questions + OutlineView::flat_upto(
                    self@.children,
                    (k + 1) as nat,
                )));
            }
            children.push(child);
            k += 1;
        }
        let tree = Section { name: self.name.clone(), questions, children };
        proof {
            assert forall|j: int| 0 <= j < tree.questions.len() implies store@[(
            #[trigger] tree.questions[j]).index as int] == self@.questions[j] by {}
            assert(tree.content(store@).questions =~= self@.questions);
            tree.lemma_contents_upto(store@, tree.children.len() as nat);
            assert(tree.content(store@).children =~= self@.children);
        }
        tree
    }
}

/// Notes that were written out from a tree and are taken into a store again
/// give a tree that holds what the first one held.
pub proof fn lemma_round_trip(
    tree: Section,
    store: Seq<QuestionView>,
    notes: Outline,
    again: Section,
    reloaded: Seq<QuestionView>,
)
    requires
        notes@ == tree.content(store),
        again.content(reloaded) == notes@,
    ensures
        again.content(reloaded) == tree.content(store),
{
}

} // verus!
