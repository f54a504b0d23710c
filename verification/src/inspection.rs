//! Carrying an inspection out, response by response.
//!
//! The caller fetches what it is told to and hands the responses in; which address
//! comes next, what a failure costs and how much may still be read is decided here.
use crate::pull_request::{
    self, accept_reply, assemble, head_commit, plan_sections, summary_url, FetchModel,
    PullRequestSection, PullRequestTarget, SectionFetch, SectionReply, TargetModel,
    MAX_RESPONSE_BYTES,
};
use crate::text;
use crate::web::{self, check_json};
use vstd::prelude::*;

verus! {

/// What a fetched section is called, and whether it is one of several parts.
proof fn lemma_planned_parts(
    target: TargetModel,
    sections: Seq<PullRequestSection>,
    head: Option<Seq<char>>,
    k: int,
    i: int,
)
    requires
        0 <= i < pull_request::planned(target, sections, head, k).len(),
    ensures
        ({
            let fetch = pull_request::planned(target, sections, head, k)[i];
            match target {
                TargetModel::Github { .. } => fetch.part is Some <==> fetch.key
                    == "conversation"@,
                TargetModel::Gitlab { .. } => fetch.part is None,
            }
        }),
    decreases k,
{
    reveal_strlit("files");
    reveal_strlit("conversation");
    reveal_strlit("reviews");
    reveal_strlit("checks");
    if k > 0 {
        let before = pull_request::planned(target, sections, head, k - 1);
        let all = pull_request::planned(target, sections, head, k);
        if i < before.len() {
            lemma_planned_parts(target, sections, head, k - 1, i);
            assert(all[i] == before[i]);
        } else {
            match target {
                TargetModel::Github { owner, repo, number } => {
                    let more = pull_request::github_fetches(
                        owner,
                        repo,
                        number,
                        sections[k - 1],
                        head,
                    );
                    assert(all[i] == more[i - before.len()]);
                    assert("files"@.len() != "conversation"@.len());
                    assert("reviews"@.len() != "conversation"@.len());
                    assert("checks"@.len() != "conversation"@.len());
                },
                TargetModel::Gitlab { project, number } => {
                    let more = pull_request::gitlab_fetches(project, number, sections[k - 1]);
                    assert(all[i] == more[i - before.len()]);
                },
            }
        }
    }
}

/// No section is put where it would stand in the way of another, or of the summary.
pub proof fn law_sections_have_places_of_their_own(
    target: TargetModel,
    sections: Seq<PullRequestSection>,
    head: Option<Seq<char>>,
    k: int,
)
    ensures
        web::apart(
            pull_request::output_paths(pull_request::planned(target, sections, head, k)),
        ),
{
    let fetches = pull_request::planned(target, sections, head, k);
    let paths = pull_request::output_paths(fetches);
    reveal_strlit("provider");
    reveal_strlit("summary");
    reveal_strlit("conversation");
    assert("provider"@.len() != "conversation"@.len());
    assert("summary"@.len() != "conversation"@.len());
    assert forall|i: int, j: int|
        #![trigger paths[i], paths[j]]
        0 <= i < paths.len() && 0 <= j < paths.len() && paths[i].len() < paths[j].len() implies paths[j].take(
        paths[i].len() as int,
    ) != paths[i] by {
        assert(j >= 2);
        let long = fetches[j - 2];
        assert(paths[j] == long.path());
        lemma_planned_parts(target, sections, head, k, j - 2);
        assert(long.part is Some);
        assert(paths[j].take(1)[0] == "conversation"@);
        assert(paths[i].len() == 1);
        if i >= 2 {
            lemma_planned_parts(target, sections, head, k, i - 2);
            assert(paths[i] == fetches[i - 2].path());
        }
        assert(paths[i][0] != "conversation"@);
    }
}

/// An inspection under way.
pub struct Inspection {
    target: PullRequestTarget,
    sections: Vec<PullRequestSection>,
    max_bytes: Option<usize>,
    summary: Option<Vec<u8>>,
    failed: Option<String>,
    fetches: Vec<SectionFetch>,
    replies: Vec<SectionReply>,
    budget: usize,
}

/// An inspection under way.
#[verifier::ext_equal]
pub struct InspectionModel {
    pub target: TargetModel,
    pub sections: Seq<PullRequestSection>,
    pub max_bytes: Option<usize>,
    /// What was read of the pull request itself.
    pub summary: Option<Seq<u8>>,
    /// Why the inspection failed, where it did.
    pub failed: Option<Seq<char>>,
    pub fetches: Seq<FetchModel>,
    pub replies: Seq<Result<Seq<u8>, Seq<char>>>,
    /// How many bytes of responses may still be read.
    pub budget: nat,
}

/// Bytes or none, as a mathematical value.
pub open spec fn bytes_value(bytes: Option<Vec<u8>>) -> Option<Seq<u8>> {
    match bytes {
        Some(b) => Some(b@),
        None => None,
    }
}

/// How many bytes the responses to sections have that were accepted.
pub open spec fn accepted_bytes(replies: Seq<Result<Seq<u8>, Seq<char>>>) -> nat
    decreases replies.len(),
{
    if replies.len() == 0 {
        0
    } else {
        accepted_bytes(replies.drop_last()) + match replies.last() {
            Ok(body) => body.len(),
            Err(_) => 0,
        }
    }
}

impl InspectionModel {
    /// An inspection that has fetched nothing yet.
    pub open spec fn begun(
        target: TargetModel,
        sections: Seq<PullRequestSection>,
        max_bytes: Option<usize>,
    ) -> InspectionModel {
        InspectionModel {
            target,
            sections,
            max_bytes,
            summary: None,
            failed: match pull_request::summary_place(target) {
                Some(_) => None,
                None => Some("the request URL could not be made"@),
            },
            fetches: Seq::empty(),
            replies: Seq::empty(),
            budget: MAX_RESPONSE_BYTES as nat,
        }
    }

    /// Whether the sections were planned from a readable summary, no more of them answered than
    /// there are, and all that was read taken from one budget.
    pub open spec fn valid(self) -> bool {
        &&& self.replies.len() <= self.fetches.len()
        &&& match self.summary {
            Some(summary) => {
                &&& self.failed is None
                &&& web::is_json(summary)
                &&& pull_request::summary_place(self.target) is Some
                &&& self.fetches == pull_request::planned(
                    self.target,
                    self.sections,
                    pull_request::head_named(summary),
                    self.sections.len() as int,
                )
                &&& self.budget + summary.len() + accepted_bytes(self.replies)
                    == MAX_RESPONSE_BYTES
            },
            None => {
                &&& self.fetches.len() == 0
                &&& self.budget == MAX_RESPONSE_BYTES
                &&& self.failed is None ==> pull_request::summary_place(self.target) is Some
            },
        }
        &&& self.replies.len() < self.fetches.len() ==> self.fetches[self.replies.len() as int].url is Ok
    }

    /// Where the next response is to be fetched; nowhere, once there is nothing left.
    pub open spec fn waiting_for(self) -> Option<Seq<char>> {
        if self.failed is Some {
            None
        } else if self.summary is None {
            pull_request::summary_place(self.target)
        } else if self.replies.len() < self.fetches.len() {
            match self.fetches[self.replies.len() as int].url {
                Ok(url) => Some(url),
                Err(_) => None,
            }
        } else {
            None
        }
    }

    /// The inspection with the next response to a section taken.
    pub open spec fn answered(self, reply: Result<Seq<u8>, Seq<char>>) -> InspectionModel {
        InspectionModel {
            replies: self.replies.push(reply),
            budget: match reply {
                Ok(body) => (self.budget - body.len()) as nat,
                Err(_) => self.budget,
            },
            ..self
        }
    }

    /// The inspection past the sections that cannot be fetched.
    pub open spec fn moved_on(self) -> InspectionModel
        decreases self.fetches.len() - self.replies.len(),
    {
        if self.replies.len() < self.fetches.len() {
            match self.fetches[self.replies.len() as int].url {
                Ok(_) => self,
                Err(error) => self.answered(Err(error)).moved_on(),
            }
        } else {
            self
        }
    }

    /// The inspection after a response. The summary decides what else is fetched, and
    /// without a readable one nothing else is; a section is shown as what it is.
    pub open spec fn received(self, status: u16, body: Seq<u8>) -> InspectionModel {
        match self.waiting_for() {
            None => self,
            Some(url) => {
                let fault = pull_request::reply_fault(url, status, body, self.budget);
                if self.summary is None {
                    match fault {
                        Some(error) => InspectionModel { failed: Some(error), ..self },
                        None if !web::is_json(body) => InspectionModel {
                            failed: Some(url + " returned invalid JSON"@),
                            ..self
                        },
                        None => (InspectionModel {
                            summary: Some(body),
                            budget: (self.budget - body.len()) as nat,
                            fetches: pull_request::planned(
                                self.target,
                                self.sections,
                                pull_request::head_named(body),
                                self.sections.len() as int,
                            ),
                            ..self
                        }).moved_on(),
                    }
                } else {
                    self.answered(
                        match fault {
                            Some(error) => Err(error),
                            None => Ok(body),
                        },
                    ).moved_on()
                }
            },
        }
    }

    /// The inspection after a request that was not answered.
    pub open spec fn missed(self) -> InspectionModel {
        match self.waiting_for() {
            None => self,
            Some(url) => if self.summary is None {
                InspectionModel { failed: Some("failed to fetch "@ + url), ..self }
            } else {
                self.answered(Err("failed to fetch "@ + url)).moved_on()
            },
        }
    }

    /// What the inspection shows in the end.
    pub open spec fn shown(self) -> Result<Seq<char>, Seq<char>> {
        match self.summary {
            Some(summary) => pull_request::inspected(
                self.target,
                summary,
                pull_request::summary_place(self.target)->0,
                self.fetches,
                self.replies,
                self.max_bytes,
            ),
            None => Err(self.failed->0),
        }
    }

    proof fn lemma_answered(self, reply: Result<Seq<u8>, Seq<char>>)
        ensures
            accepted_bytes(self.answered(reply).replies) == accepted_bytes(self.replies) + match reply {
                Ok(body) => body.len(),
                Err(_) => 0,
            },
    {
        assert(self.answered(reply).replies.drop_last() =~= self.replies);
    }

    proof fn lemma_moved_on(self)
        requires
            self.replies.len() <= self.fetches.len(),
        ensures
            ({
                let after = self.moved_on();
                &&& after.replies.len() <= after.fetches.len()
                &&& after.replies.len() < after.fetches.len()
                    ==> after.fetches[after.replies.len() as int].url is Ok
                &&& after.fetches == self.fetches
                &&& after.target == self.target
                &&& after.sections == self.sections
                &&& after.max_bytes == self.max_bytes
                &&& after.summary == self.summary
                &&& after.failed == self.failed
                &&& after.budget == self.budget
                &&& accepted_bytes(after.replies) == accepted_bytes(self.replies)
            }),
        decreases self.fetches.len() - self.replies.len(),
    {
        if self.replies.len() < self.fetches.len() {
            if let Err(error) = self.fetches[self.replies.len() as int].url {
                self.lemma_answered(Err(error));
                self.answered(Err(error)).lemma_moved_on();
            }
        }
    }
}

/// All that an inspection reads, the summary and every section of it, is taken from one
/// budget, whatever is answered and whatever is not.
pub proof fn law_responses_share_one_budget(inspection: InspectionModel, status: u16, body: Seq<u8>)
    requires
        inspection.valid(),
    ensures
        inspection.received(status, body).valid(),
        inspection.missed().valid(),
        inspection.summary matches Some(summary) ==> summary.len() + accepted_bytes(
            inspection.replies,
        ) <= MAX_RESPONSE_BYTES,
{
    if let Some(url) = inspection.waiting_for() {
        let fault = pull_request::reply_fault(url, status, body, inspection.budget);
        if inspection.summary is None {
            let read = InspectionModel {
                summary: Some(body),
                budget: (inspection.budget - body.len()) as nat,
                fetches: pull_request::planned(
                    inspection.target,
                    inspection.sections,
                    pull_request::head_named(body),
                    inspection.sections.len() as int,
                ),
                ..inspection
            };
            assert(inspection.replies =~= Seq::empty());
            read.lemma_moved_on();
        } else {
            let reply = match fault {
                Some(error) => Err::<Seq<u8>, Seq<char>>(error),
                None => Ok::<Seq<u8>, Seq<char>>(body),
            };
            inspection.lemma_answered(reply);
            inspection.answered(reply).lemma_moved_on();
            let silent = Err::<Seq<u8>, Seq<char>>("failed to fetch "@ + url);
            inspection.lemma_answered(silent);
            inspection.answered(silent).lemma_moved_on();
        }
    }
}

/// Once the summary has been read, an inspection has something to show, whatever becomes
/// of its sections; until then nothing but the summary is fetched.
pub proof fn law_read_summary_is_shown(inspection: InspectionModel)
    requires
        inspection.valid(),
    ensures
        inspection.summary is Some ==> inspection.shown() is Ok,
        inspection.summary is None ==> inspection.fetches.len() == 0
            && inspection.replies.len() == 0,
{
}

impl View for Inspection {
    type V = InspectionModel;

    closed spec fn view(&self) -> InspectionModel {
        InspectionModel {
            target: self.target@,
            sections: self.sections@,
            max_bytes: self.max_bytes,
            summary: bytes_value(self.summary),
            failed: pull_request::optional(self.failed),
            fetches: pull_request::fetch_models(self.fetches@),
            replies: pull_request::reply_values(self.replies@),
            budget: self.budget as nat,
        }
    }
}

impl Inspection {
    /// Starts an inspection.
    pub fn begin(
        target: PullRequestTarget,
        sections: Vec<PullRequestSection>,
        max_bytes: Option<usize>,
    ) -> (res: Self)
        ensures
            res@ == InspectionModel::begun(target@, sections@, max_bytes),
            res@.valid(),
    {
        let failed = match summary_url(&target) {
            Some(_) => None,
            None => Some("the request URL could not be made".to_owned()),
        };
        let res = Inspection {
            target,
            sections,
            max_bytes,
            summary: None,
            failed,
            fetches: Vec::new(),
            replies: Vec::new(),
            budget: MAX_RESPONSE_BYTES,
        };
        proof {
            assert(res@ =~= InspectionModel::begun(target@, sections@, max_bytes));
        }
        res
    }

    /// The pull request that is inspected.
    pub fn target(&self) -> (res: &PullRequestTarget)
        ensures
            res@ == self@.target,
    {
        &self.target
    }

    /// How many bytes of responses may still be read.
    pub fn budget(&self) -> (res: usize)
        ensures
            res as nat == self@.budget,
    {
        self.budget
    }

    /// The address to fetch next; none, once there is nothing left.
    pub fn next_url(&self) -> (res: Option<String>)
        ensures
            pull_request::optional(res) == self@.waiting_for(),
    {
        if self.failed.is_some() {
            return None;
        }
        if self.summary.is_none() {
            return summary_url(&self.target);
        }
        let k: usize = self.replies.len();
        proof {
            assert(self@.replies.len() == self.replies@.len());
            assert(self@.fetches.len() == self.fetches@.len());
        }
        if k < self.fetches.len() {
            proof {
                assert(self@.fetches[k as int] == self.fetches@[k as int]@);
            }
            match &self.fetches[k].url {
                Ok(url) => Some(url.clone()),
                Err(_) => None,
            }
        } else {
            None
        }
    }

    fn answer(&mut self, result: Result<Vec<u8>, String>, left: usize)
        requires
            match result {
                Ok(body) => left + body@.len() == old(self)@.budget,
                Err(_) => left as nat == old(self)@.budget,
            },
        ensures
            final(self)@ == old(self)@.answered(
                pull_request::reply_value(SectionReply { result }),
            ),
    {
        let ghost before = *self;
        let reply = SectionReply { result };
        let ghost value = pull_request::reply_value(reply);
        self.replies.push(reply);
        self.budget = left;
        proof {
            assert(self@.replies =~= before@.replies.push(value));
            assert(self@ =~= before@.answered(value));
        }
    }

    fn move_on(&mut self)
        requires
            old(self)@.replies.len() <= old(self)@.fetches.len(),
        ensures
            final(self)@ == old(self)@.moved_on(),
    {
        let ghost goal = self@.moved_on();
        loop
            invariant
                self@.replies.len() <= self@.fetches.len(),
                self@.moved_on() == goal,
                goal == old(self)@.moved_on(),
            ensures
                self@ == goal,
            decreases self@.fetches.len() - self@.replies.len(),
        {
            let k: usize = self.replies.len();
            proof {
                assert(self@.replies.len() == self.replies@.len());
                assert(self@.fetches.len() == self.fetches@.len());
            }
            if k >= self.fetches.len() {
                break;
            }
            proof {
                assert(self@.fetches[k as int] == self.fetches@[k as int]@);
            }
            let error = match &self.fetches[k].url {
                Ok(_) => None,
                Err(error) => Some(error.clone()),
            };
            match error {
                None => {
                    break;
                },
                Some(error) => {
                    let left: usize = self.budget;
                    self.answer(Err(error), left);
                },
            }
        }
    }

    /// Takes a response.
    pub fn reply(&mut self, status: u16, body: Vec<u8>)
        requires
            old(self)@.valid(),
        ensures
            final(self)@ == old(self)@.received(status, body@),
            final(self)@.valid(),
    {
        proof {
            law_responses_share_one_budget(self@, status, body@);
        }
        let url = match self.next_url() {
            Some(url) => url,
            None => {
                return;
            },
        };
        let accepted = accept_reply(url.as_str(), status, &body, self.budget);
        if self.summary.is_none() {
            match accepted {
                Err(error) => {
                    let ghost before = self@;
                    self.failed = Some(error);
                    proof {
                        assert(self@ =~= before.received(status, body@));
                    }
                },
                Ok(_) if !check_json(body.as_slice()) => {
                    let ghost before = self@;
                    self.failed = Some(text::cat2(url.as_str(), " returned invalid JSON"));
                    proof {
                        assert(self@ =~= before.received(status, body@));
                    }
                },
                Ok(left) => {
                    let ghost before = self@;
                    let head = head_commit(&body);
                    self.fetches = plan_sections(&self.target, &self.sections, &head);
                    self.summary = Some(body);
                    self.budget = left;
                    proof {
                        assert(before.replies.len() == 0);
                        assert(self@ =~= (InspectionModel {
                            summary: Some(body@),
                            budget: (before.budget - body@.len()) as nat,
                            fetches: pull_request::planned(
                                before.target,
                                before.sections,
                                pull_request::head_named(body@),
                                before.sections.len() as int,
                            ),
                            ..before
                        }));
                    }
                    self.move_on();
                },
            }
        } else {
            match accepted {
                Err(error) => {
                    let left: usize = self.budget;
                    self.answer(Err(error), left);
                },
                Ok(left) => {
                    self.answer(Ok(body), left);
                },
            }
            self.move_on();
        }
    }

    /// Notes that a request was not answered.
    pub fn miss(&mut self)
        requires
            old(self)@.valid(),
        ensures
            final(self)@ == old(self)@.missed(),
            final(self)@.valid(),
    {
        proof {
            law_responses_share_one_budget(self@, 0, Seq::empty());
        }
        let url = match self.next_url() {
            Some(url) => url,
            None => {
                return;
            },
        };
        let error = text::cat2("failed to fetch ", url.as_str());
        if self.summary.is_none() {
            let ghost before = self@;
            self.failed = Some(error);
            proof {
                assert(self@ =~= before.missed());
            }
        } else {
            let left: usize = self.budget;
            self.answer(Err(error), left);
            self.move_on();
        }
    }

    /// What the inspection shows, once there is nothing left to fetch.
    pub fn finish(&self) -> (res: Result<String, String>)
        requires
            self@.valid(),
            self@.waiting_for() is None,
        ensures
            pull_request::found(res) == self@.shown(),
    {
        proof {
            assert(self@.replies.len() == self.replies@.len());
            assert(self@.fetches.len() == self.fetches@.len());
        }
        match &self.summary {
            Some(summary) => {
                let place = match summary_url(&self.target) {
                    Some(url) => url,
                    None => String::new(),
                };
                proof {
                    law_sections_have_places_of_their_own(
                        self@.target,
                        self@.sections,
                        pull_request::head_named(summary@),
                        self@.sections.len() as int,
                    );
                }
                assemble(
                    &self.target,
                    summary,
                    place.as_str(),
                    &self.fetches,
                    &self.replies,
                    self.max_bytes,
                )
            },
            None => match &self.failed {
                Some(error) => Err(error.clone()),
                None => Err(String::new()),
            },
        }
    }
}

/// What the user is asked before an inspection.
pub fn authorization_title(target: &PullRequestTarget) -> (res: String)
    ensures
        res@ == "Inspect "@ + pull_request::provider(target@) + " pull request"@,
{
    text::cat3("Inspect ", target.provider_name(), " pull request")
}

} // verus!
