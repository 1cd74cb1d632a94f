//! The data model: text blocks, submissions, and challenges.

use vstd::prelude::*;
use crate::numerals::is_hex_char;

verus! {

/// One fenced code region: an optional language tag and the lines inside
/// the fences.
pub struct TextBlock {
    pub language: Option<String>,
    pub content: Vec<String>,
}

/// Mathematical value of a [`TextBlock`].
#[verifier::ext_equal]
pub ghost struct TextBlockView {
    pub language: Option<Seq<char>>,
    pub content: Seq<Seq<char>>,
}

impl View for TextBlock {
    type V = TextBlockView;

    open spec fn view(&self) -> TextBlockView {
        TextBlockView {
            language: match self.language {
                Some(s) => Some(s@),
                None => None,
            },
            content: self.content@.map_values(|s: String| s@),
        }
    }
}

impl TextBlock {
    pub fn new(language: Option<String>, content: Vec<String>) -> (r: TextBlock)
        ensures
            r.language == language,
            r.content == content,
    {
        TextBlock { language, content }
    }
}

/// One accepted attempt: who made it, the literal keys as submitted
/// (after stripping the optional backtick quoting), and its score.
pub struct Submission {
    pub author: String,
    pub keys: String,
    pub score: usize,
}

/// Mathematical value of a [`Submission`].
#[verifier::ext_equal]
pub ghost struct SubmissionView {
    pub author: Seq<char>,
    pub keys: Seq<char>,
    pub score: int,
}

impl View for Submission {
    type V = SubmissionView;

    open spec fn view(&self) -> SubmissionView {
        SubmissionView { author: self.author@, keys: self.keys@, score: self.score as int }
    }
}

impl Submission {
    pub fn duplicate(&self) -> (r: Submission)
        ensures
            r@ == self@,
    {
        Submission {
            author: self.author.clone(),
            keys: self.keys.clone(),
            score: self.score,
        }
    }
}

/// A registered challenge: identity, title, the initial and target buffers,
/// creation time, and the ledger of accepted submissions in insertion order.
pub struct Challenge {
    pub id: String,
    pub title: String,
    pub input: TextBlock,
    pub output: TextBlock,
    pub created_at: i64,
    pub submissions: Vec<Submission>,
}

/// Mathematical value of a [`Challenge`].
#[verifier::ext_equal]
pub ghost struct ChallengeView {
    pub id: Seq<char>,
    pub title: Seq<char>,
    pub input: TextBlockView,
    pub output: TextBlockView,
    pub created_at: int,
    pub submissions: Seq<SubmissionView>,
}

impl View for Challenge {
    type V = ChallengeView;

    open spec fn view(&self) -> ChallengeView {
        ChallengeView {
            id: self.id@,
            title: self.title@,
            input: self.input@,
            output: self.output@,
            created_at: self.created_at as int,
            submissions: self.submissions@.map_values(|s: Submission| s@),
        }
    }
}

impl Challenge {
    /// A challenge as `register` builds it: a six-character lower-case hex
    /// id, and both buffers non-empty.
    pub open spec fn well_formed(self) -> bool {
        &&& self@.id.len() == 6
        &&& forall|i: int| 0 <= i < 6 ==> is_hex_char(#[trigger] self@.id[i])
        &&& self@.input.content.len() > 0
        &&& self@.output.content.len() > 0
    }

    pub fn new(
        title: String,
        input: TextBlock,
        output: TextBlock,
        id: String,
        created_at: i64,
    ) -> (r: Challenge)
        ensures
            r@.title == title@,
            r@.input == input@,
            r@.output == output@,
            r@.id == id@,
            r@.created_at == created_at as int,
            r@.submissions == Seq::<SubmissionView>::empty(),
    {
        let r = Challenge { id, title, input, output, created_at, submissions: Vec::new() };
        proof {
            assert(r@.submissions =~= Seq::<SubmissionView>::empty());
        }
        r
    }

    /// Appends one accepted submission; nothing else changes and no earlier
    /// entry is touched.
    pub fn add_submission(&mut self, author: String, keys: String, score: usize)
        ensures
            final(self)@.submissions == old(self)@.submissions.push(
                SubmissionView { author: author@, keys: keys@, score: score as int },
            ),
            final(self)@.id == old(self)@.id,
            final(self)@.title == old(self)@.title,
            final(self)@.input == old(self)@.input,
            final(self)@.output == old(self)@.output,
            final(self)@.created_at == old(self)@.created_at,
    {
        let ghost before = self@.submissions;
        self.submissions.push(Submission { author, keys, score });
        proof {
            assert(final(self)@.submissions =~= before.push(
                SubmissionView { author: author@, keys: keys@, score: score as int },
            ));
        }
    }
}

} // verus!
