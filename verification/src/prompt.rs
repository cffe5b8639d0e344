//! The prompt capability: the questions that an operation may put to the
//! user, and a prompt that answers from a prepared list.

use vstd::prelude::*;
use vstd::string::*;
use crate::error::Error;
use crate::path::texts;

verus! {

/// One prepared answer.
#[derive(Clone, Copy, Debug, PartialEq, Eq, Structural)]
pub enum Reply {
    /// The answer to a yes-or-no question.
    Confirm(bool),
    /// The index of the choice picked from a list.
    Select(usize),
}

/// A question as it was put.
#[derive(Debug)]
pub struct Question {
    /// The text shown.
    pub message: String,
    /// The choices offered, in order; none where the question is answered
    /// with yes or no.
    pub choices: Vec<String>,
}

/// The mathematical value of a `Question`.
pub struct QuestionView {
    pub message: Seq<char>,
    pub choices: Seq<Seq<char>>,
}

impl View for Question {
    type V = QuestionView;

    open spec fn view(&self) -> QuestionView {
        QuestionView { message: self.message@, choices: texts(self.choices@) }
    }
}

/// The values of a sequence of questions.
pub open spec fn question_views(questions: Seq<Question>) -> Seq<QuestionView> {
    Seq::new(questions.len(), |i: int| questions[i]@)
}

/// The values of a list of choices.
pub open spec fn labels(choices: Seq<&str>) -> Seq<Seq<char>> {
    Seq::new(choices.len(), |i: int| choices[i]@)
}

/// The yes-or-no question with the text `message`.
pub open spec fn confirmation(message: Seq<char>) -> QuestionView {
    QuestionView { message, choices: Seq::empty() }
}

/// The question with the text `message` that offers `choices`.
pub open spec fn selection(message: Seq<char>, choices: Seq<Seq<char>>) -> QuestionView {
    QuestionView { message, choices }
}

/// What a yes-or-no question is answered with when `pending` are the answers
/// still to be given: the first of them, if it is an answer to such a
/// question.
pub open spec fn confirm_reply(pending: Seq<Reply>) -> Result<bool, Error> {
    if pending.len() > 0 && pending[0] is Confirm {
        Ok(pending[0]->Confirm_0)
    } else {
        Err(Error::Environment)
    }
}

/// What a choice among `choices` alternatives is answered with when `pending`
/// are the answers still to be given: the first of them, if it picks one of
/// the alternatives.
pub open spec fn select_reply(pending: Seq<Reply>, choices: nat) -> Result<usize, Error> {
    if pending.len() > 0 && pending[0] is Select && pending[0]->Select_0 < choices {
        Ok(pending[0]->Select_0)
    } else {
        Err(Error::Environment)
    }
}

/// The answers still to be given once a question has been put: the first one
/// is used up, whether or not it fitted the question.
pub open spec fn after_reply(pending: Seq<Reply>) -> Seq<Reply> {
    if pending.len() > 0 {
        pending.drop_first()
    } else {
        pending
    }
}

/// The questions that an operation may put to the user.
///
/// A prompt that answers from a prepared list reports `scripted()`; what it
/// will answer is then fixed by `pending()`, and `asked()` holds the
/// questions put to it. An interactive prompt keeps the defaults, and the
/// contracts promise nothing of it. Either kind fails with
/// `Error::Environment` where no answer can be had.
pub trait Prompt {
    /// Whether this prompt answers from a prepared list.
    open spec fn scripted(&self) -> bool {
        false
    }

    /// The prepared answers not yet given, where the prompt is `scripted()`.
    open spec fn pending(&self) -> Seq<Reply> {
        Seq::empty()
    }

    /// The questions put so far, oldest first, where the prompt is
    /// `scripted()`.
    open spec fn asked(&self) -> Seq<QuestionView> {
        Seq::empty()
    }

    /// Asks a yes-or-no question.
    fn confirm(&mut self, message: &str) -> (r: Result<bool, Error>)
        ensures
            old(self).scripted() ==> {
                &&& final(self).scripted()
                &&& r == confirm_reply(old(self).pending())
                &&& final(self).pending() == after_reply(old(self).pending())
                &&& final(self).asked() == old(self).asked().push(confirmation(message@))
            },
    ;

    /// Asks for one of `choices`, and gives the index of the one picked.
    fn select(&mut self, message: &str, choices: &[&str]) -> (r: Result<usize, Error>)
        ensures
            old(self).scripted() ==> {
                &&& final(self).scripted()
                &&& r == select_reply(old(self).pending(), choices@.len())
                &&& final(self).pending() == after_reply(old(self).pending())
                &&& final(self).asked() == old(self).asked().push(
                    selection(message@, labels(choices@)),
                )
            },
    ;
}

/// A prompt that answers from a prepared list and keeps the questions it was
/// asked.
#[derive(Debug)]
pub struct ScriptedPrompt {
    replies: Vec<Reply>,
    given: usize,
    questions: Vec<Question>,
}

impl ScriptedPrompt {
    /// A prompt that will give `replies` in order, one to each question.
    pub fn new(replies: Vec<Reply>) -> (r: ScriptedPrompt)
        ensures
            r.pending() == replies@,
            r.asked() == Seq::<QuestionView>::empty(),
    {
        let r = ScriptedPrompt { replies, given: 0, questions: Vec::new() };
        assert(r.replies@.skip(0) =~= r.replies@);
        assert(r.asked() =~= Seq::<QuestionView>::empty());
        r
    }

    /// The questions put so far, oldest first.
    pub fn questions(&self) -> (r: &Vec<Question>)
        ensures
            question_views(r@) == self.asked(),
    {
        &self.questions
    }

    /// How many prepared answers are still to be given.
    pub fn remaining(&self) -> (r: usize)
        ensures
            r == self.pending().len(),
    {
        if self.given <= self.replies.len() {
            self.replies.len() - self.given
        } else {
            0
        }
    }

    /// Records `question` and uses up the next answer.
    fn next_reply(&mut self, question: Question) -> (r: Option<Reply>)
        ensures
            final(self).pending() == after_reply(old(self).pending()),
            final(self).asked() == old(self).asked().push(question@),
            r is None <==> old(self).pending().len() == 0,
            r matches Some(reply) ==> reply == old(self).pending()[0],
    {
        let ghost before = self.asked();
        let ghost added = question@;
        self.questions.push(question);
        assert(self.asked() =~= before.push(added));
        if self.given < self.replies.len() {
            let reply = self.replies[self.given];
            self.given = self.given + 1;
            assert(self.replies@.skip(self.given as int) =~= old(self).replies@.skip(
                old(self).given as int,
            ).drop_first());
            Some(reply)
        } else {
            None
        }
    }
}

/// The choices as owned texts.
fn owned_labels(choices: &[&str]) -> (r: Vec<String>)
    ensures
        texts(r@) == labels(choices@),
{
    let mut r: Vec<String> = Vec::new();
    let mut i: usize = 0;
    while i < choices.len()
        invariant
            i <= choices.len(),
            r.len() == i,
            forall|j: int| 0 <= j < i ==> r[j]@ == choices[j]@,
        decreases choices.len() - i,
    {
        r.push(choices[i].to_owned());
        i += 1;
    }
    assert(texts(r@) =~= labels(choices@));
    r
}

impl Prompt for ScriptedPrompt {
    open spec fn scripted(&self) -> bool {
        true
    }

    closed spec fn pending(&self) -> Seq<Reply> {
        if self.given <= self.replies.len() {
            self.replies@.skip(self.given as int)
        } else {
            Seq::empty()
        }
    }

    closed spec fn asked(&self) -> Seq<QuestionView> {
        question_views(self.questions@)
    }

    fn confirm(&mut self, message: &str) -> (r: Result<bool, Error>) {
        let question = Question { message: message.to_owned(), choices: Vec::new() };
        assert(question@.choices =~= Seq::<Seq<char>>::empty());
        match self.next_reply(question) {
            Some(Reply::Confirm(answer)) => Ok(answer),
            _ => Err(Error::Environment),
        }
    }

    fn select(&mut self, message: &str, choices: &[&str]) -> (r: Result<usize, Error>) {
        let question = Question { message: message.to_owned(), choices: owned_labels(choices) };
        match self.next_reply(question) {
            Some(Reply::Select(index)) => {
                if index < choices.len() {
                    Ok(index)
                } else {
                    Err(Error::Environment)
                }
            },
            _ => Err(Error::Environment),
        }
    }
}

} // verus!
