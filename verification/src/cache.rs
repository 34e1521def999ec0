//! The last configuration that was built, and how requests are answered from it.
//!
//! Times are nanoseconds since a moment that all times of one cache have in common.
use vstd::prelude::*;

verus! {

/// For how many seconds a configuration is handed out where nothing refreshes it.
pub const TTL_SECONDS: u64 = 600;

/// The last configuration that was built. With a lifetime it is handed out only so long.
#[derive(Debug)]
pub struct Cache {
    data: Option<String>,
    created_at: Option<u128>,
    ttl: Option<u128>,
}

/// What a `Cache` holds: the configuration with the time when it was built, and the lifetime.
#[verifier::ext_equal]
pub struct CacheView {
    pub entry: Option<(Seq<char>, u128)>,
    pub ttl: Option<u128>,
}

/// How much time has passed from `since` to `now`.
pub open spec fn elapsed(since: u128, now: u128) -> nat {
    if since <= now {
        (now - since) as nat
    } else {
        0
    }
}

impl CacheView {
    /// There is a lifetime, and nothing was built within it.
    pub open spec fn expired(self, now: u128) -> bool {
        match self.ttl {
            None => false,
            Some(ttl) => match self.entry {
                Some((_, at)) => elapsed(at, now) >= ttl,
                None => true,
            },
        }
    }

    /// What is handed out at `now`.
    pub open spec fn held(self, now: u128) -> Option<Seq<char>> {
        match self.entry {
            Some((data, _)) => if self.expired(now) {
                None
            } else {
                Some(data)
            },
            None => None,
        }
    }

    /// The cache after an attempt to build a configuration, which replaces the old one only
    /// where it succeeded.
    pub open spec fn refreshed(self, built: Option<Seq<char>>, now: u128) -> CacheView {
        match built {
            Some(data) => CacheView { entry: Some((data, now)), ttl: self.ttl },
            None => self,
        }
    }
}

impl View for Cache {
    type V = CacheView;

    closed spec fn view(&self) -> CacheView {
        CacheView {
            entry: match (self.data, self.created_at) {
                (Some(data), Some(at)) => Some((data@, at)),
                _ => None,
            },
            ttl: self.ttl,
        }
    }
}

impl Cache {
    /// A configuration and the time when it was built are known together or not at all.
    #[verifier::type_invariant]
    spec fn consistent(self) -> bool {
        self.data is Some <==> self.created_at is Some
    }

    /// An empty cache.
    pub fn new(ttl: Option<u128>) -> (cache: Self)
        ensures
            cache@ == (CacheView { entry: None, ttl }),
    {
        Cache { data: None, created_at: None, ttl }
    }

    /// Puts a configuration in that was built at `now`.
    pub fn set(&mut self, data: String, now: u128)
        ensures
            final(self)@ == old(self)@.refreshed(Some(data@), now),
    {
        *self = Cache { data: Some(data), created_at: Some(now), ttl: self.ttl };
    }

    /// There is a lifetime, and nothing was built within it.
    pub fn is_expired(&self, now: u128) -> (expired: bool)
        ensures
            expired == self@.expired(now),
    {
        proof {
            use_type_invariant(self);
        }
        match self.ttl {
            None => false,
            Some(ttl) => match self.created_at {
                Some(at) => {
                    let age: u128 = if at <= now {
                        now - at
                    } else {
                        0
                    };
                    age >= ttl
                },
                None => true,
            },
        }
    }

    /// What is handed out at `now`.
    pub fn get(&self, now: u128) -> (data: Option<&String>)
        ensures
            match data {
                Some(text) => self@.held(now) == Some(text@),
                None => self@.held(now) is None,
            },
    {
        proof {
            use_type_invariant(self);
        }
        if self.is_expired(now) {
            return None;
        }
        self.data.as_ref()
    }
}

/// The lifetime of what is cached, in nanoseconds: with refreshes every `refresh_secs` seconds it
/// has none, and without them (0) the usual one.
pub fn cache_ttl(refresh_secs: u64) -> (ttl: Option<u128>)
    ensures
        refresh_secs == 0 ==> ttl == Some(600_000_000_000u128),
        refresh_secs != 0 ==> ttl is None,
{
    if refresh_secs == 0 {
        Some(TTL_SECONDS as u128 * 1_000_000_000)
    } else {
        None
    }
}

/// The characters of a configuration, where one was built.
pub open spec fn built_view(built: Option<String>) -> Option<Seq<char>> {
    match built {
        Some(data) => Some(data@),
        None => None,
    }
}

/// Records an attempt to build a configuration that ended at `now`. A failure keeps the old one.
pub fn refresh_subscription(cache: &mut Cache, built: Option<String>, now: u128)
    ensures
        final(cache)@ == old(cache)@.refreshed(built_view(built), now),
{
    if let Some(data) = built {
        cache.set(data, now);
    }
}

/// The answer to a request.
#[derive(Debug)]
pub enum Answer {
    /// The configuration.
    Body(String),
    /// There is none.
    Failure { status: u16, text: &'static str },
}

/// What an `Answer` holds.
#[verifier::ext_equal]
pub enum AnswerView {
    Body(Seq<char>),
    Failure { status: u16, text: Seq<char> },
}

impl View for Answer {
    type V = AnswerView;

    open spec fn view(&self) -> AnswerView {
        match *self {
            Answer::Body(data) => AnswerView::Body(data@),
            Answer::Failure { status, text } => AnswerView::Failure { status, text: text@ },
        }
    }
}

/// The answer where `held` is what the cache hands out.
pub open spec fn answer(held: Option<Seq<char>>) -> AnswerView {
    match held {
        Some(data) => AnswerView::Body(data),
        None => AnswerView::Failure { status: 500, text: "failed to build subscription"@ },
    }
}

/// The answer where there is no configuration.
pub fn failure() -> (reply: Answer)
    ensures
        reply@ == answer(None),
{
    Answer::Failure { status: 500, text: "failed to build subscription" }
}

/// The answer to a request before anything is built for it; none, where something has to be.
pub fn answer_at_once(cache: &Cache, now: u128) -> (reply: Option<Answer>)
    ensures
        match reply {
            Some(reply) => cache@.held(now) is Some && reply@ == answer(cache@.held(now)),
            None => cache@.held(now) is None,
        },
{
    match cache.get(now) {
        Some(data) => Some(Answer::Body(data.clone())),
        None => None,
    }
}

/// The answer to a request after an attempt to build a configuration for it.
pub fn answer_after_refresh(cache: &Cache, now: u128) -> (reply: Answer)
    ensures
        reply@ == answer(cache@.held(now)),
{
    match cache.get(now) {
        Some(data) => Answer::Body(data.clone()),
        None => failure(),
    }
}

// ---------------------------------------------------------------------------
// Laws
// ---------------------------------------------------------------------------

/// The cache with the lifetime `ttl` after some attempts, each with what it built, if anything,
/// and the time when it ended.
pub open spec fn after_attempts(
    ttl: Option<u128>,
    attempts: Seq<(Option<Seq<char>>, u128)>,
) -> CacheView
    decreases attempts.len(),
{
    if attempts.len() == 0 {
        CacheView { entry: None, ttl }
    } else {
        after_attempts(ttl, attempts.drop_last()).refreshed(attempts.last().0, attempts.last().1)
    }
}

/// After any attempts, what the cache holds is what the last one that succeeded built; failures
/// do not touch it.
pub proof fn law_last_success_is_kept(
    ttl: Option<u128>,
    attempts: Seq<(Option<Seq<char>>, u128)>,
    last: int,
)
    requires
        0 <= last < attempts.len(),
        attempts[last].0 is Some,
        forall|i: int| last < i < attempts.len() ==> (#[trigger] attempts[i]).0 is None,
    ensures
        after_attempts(ttl, attempts) == (CacheView {
            entry: Some((attempts[last].0->0, attempts[last].1)),
            ttl,
        }),
    decreases attempts.len(),
{
    lemma_ttl_stays(ttl, attempts.drop_last());
    if last < attempts.len() - 1 {
        assert(attempts[attempts.len() - 1].0 is None);
        law_last_success_is_kept(ttl, attempts.drop_last(), last);
    }
}

/// Attempts do not change the lifetime.
proof fn lemma_ttl_stays(ttl: Option<u128>, attempts: Seq<(Option<Seq<char>>, u128)>)
    ensures
        after_attempts(ttl, attempts).ttl == ttl,
    decreases attempts.len(),
{
    if attempts.len() > 0 {
        lemma_ttl_stays(ttl, attempts.drop_last());
    }
}

/// As long as every attempt failed, every request fails; no failure is cached as a success.
pub proof fn law_nothing_built_nothing_served(
    ttl: Option<u128>,
    attempts: Seq<(Option<Seq<char>>, u128)>,
    now: u128,
)
    requires
        forall|i: int| 0 <= i < attempts.len() ==> (#[trigger] attempts[i]).0 is None,
    ensures
        after_attempts(ttl, attempts).entry is None,
        answer(after_attempts(ttl, attempts).held(now)) == answer(None),
    decreases attempts.len(),
{
    if attempts.len() > 0 {
        assert(attempts[attempts.len() - 1].0 is None);
        law_nothing_built_nothing_served(ttl, attempts.drop_last(), now);
    }
}

/// With a lifetime, a configuration is served until the lifetime is over, and no longer.
pub proof fn law_served_for_its_lifetime(
    cache: CacheView,
    data: Seq<char>,
    built_at: u128,
    now: u128,
)
    requires
        cache.ttl is Some,
        built_at <= now,
    ensures
        cache.refreshed(Some(data), built_at).held(now) == (if now - built_at < cache.ttl->0 {
            Some(data)
        } else {
            None
        }),
{
}

/// Without a lifetime, what was built once is served at any time.
pub proof fn law_served_forever(cache: CacheView, data: Seq<char>, built_at: u128, now: u128)
    requires
        cache.ttl is None,
    ensures
        cache.refreshed(Some(data), built_at).held(now) == Some(data),
{
}

/// Where an attempt fails, requests are answered as before it.
pub proof fn law_failure_changes_nothing(cache: CacheView, ended_at: u128, now: u128)
    ensures
        cache.refreshed(None, ended_at).held(now) == cache.held(now),
{
}

/// A clock that stands behind the time when the configuration was built counts as no time passed.
pub proof fn law_clock_behind(cache: CacheView, data: Seq<char>, built_at: u128, now: u128)
    requires
        cache.ttl matches Some(ttl) ==> ttl > 0,
        now <= built_at,
    ensures
        cache.refreshed(Some(data), built_at).held(now) == Some(data),
{
}

/// A request is answered with the configuration that is held, all of it, and with status 500
/// where none is.
pub proof fn law_what_is_answered(held: Option<Seq<char>>)
    ensures
        held matches Some(data) ==> answer(held) == AnswerView::Body(data),
        held is None ==> answer(held) == (AnswerView::Failure {
            status: 500,
            text: "failed to build subscription"@,
        }),
{
}

/// A configuration is held only until its lifetime is over, by the time when it was built and not
/// by any attempt since.
pub proof fn law_failures_do_not_lengthen_a_lifetime(
    ttl: u128,
    attempts: Seq<(Option<Seq<char>>, u128)>,
    last: int,
    now: u128,
)
    requires
        0 <= last < attempts.len(),
        attempts[last].0 is Some,
        forall|i: int| last < i < attempts.len() ==> (#[trigger] attempts[i]).0 is None,
        attempts[last].1 <= now,
    ensures
        after_attempts(Some(ttl), attempts).held(now) == (if now - attempts[last].1 < ttl {
            attempts[last].0
        } else {
            None
        }),
{
    law_last_success_is_kept(Some(ttl), attempts, last);
}

/// What contracts speak of in place of an answer, or of what was built, leaves nothing out.
pub proof fn law_answer_views_are_complete(data: String, status: u16, text: &'static str)
    ensures
        Answer::Body(data)@ == AnswerView::Body(data@),
        (Answer::Failure { status, text })@ == (AnswerView::Failure { status, text: text@ }),
        built_view(Some(data)) == Some(data@),
        built_view(None) is None,
{
}

} // verus!
