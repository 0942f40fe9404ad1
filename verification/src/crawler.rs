//! The scheduling of a crawl, as a state machine: which task to fetch
//! next, whether the filter and robots.txt let it through, what a fetched
//! or failed task yields, and which of a page's links are queued.
//!
//! The fetching, waiting and writing happen outside this library; the
//! caller asks [`Crawler::next_step`] what to do and [`Crawler::check_task`]
//! whether to fetch, performs it (fetching a site's robots.txt for
//! [`Crawler::learn_robots`] where asked), and hands each outcome back
//! through [`Crawler::record_result`].

use vstd::prelude::*;
use std::collections::VecDeque;
use crate::config::{first_unparsable, str_views, CrawlerConfig};
use crate::deduper::{dedup_key, MemoryDeduper, UrlDeduper};
use crate::fetcher::FetchResult;
use crate::filter::{deny_reason, FilterResult, UrlFilter};
use crate::models::{CrawlResult, CrawlStats, CrawlTask, Link, Page};
use crate::parser::HtmlParser;
use crate::robots::{response_rules, robots_answer, robots_key, RobotsDecision, RobotsManager};
use crate::urls::{url_parse, UrlView, WebUrl};

verus! {

/// Why a crawl could not start or go on.
#[derive(Debug)]
pub enum CrawlerError {
    /// The HTTP client could not be built; the text says why.
    FetcherInit(String),
    /// The output could not be opened; the text says why.
    StorageInit(String),
    /// A seed is not a URL; the text is the parse error.
    UrlParse(String),
    /// A task could not be queued.
    TaskSendError,
    /// A result could not be passed on.
    ResultSendError,
    /// The crawl was interrupted.
    Interrupted,
}

/// What the caller does next.
pub enum CrawlStep {
    /// Start the task: check it with [`Crawler::check_task`], fetch it,
    /// and hand the outcome to [`Crawler::record_result`].
    Fetch(CrawlTask),
    /// Wait for a task in flight to finish and hand its outcome back.
    Wait,
    /// A task is ready, but the last one started less than `delay_ms`
    /// ago: wait this many milliseconds (handing back any outcome that
    /// comes meanwhile), then ask again.
    Pause(u64),
    /// The crawl is over.
    Finish,
}

/// Whether a task that [`Crawler::next_step`] handed out is fetched.
pub enum TaskCheck {
    /// Fetch the task and hand the outcome to [`Crawler::record_result`].
    Go,
    /// The task is not fetched: hand this result to
    /// [`Crawler::record_result`].
    Refused(CrawlResult),
    /// The rules of the task's site are not known yet: fetch this
    /// robots.txt URL and hand the response to [`Crawler::learn_robots`].
    NeedRobots(WebUrl),
}

/// The error recorded for a task that robots.txt does not let through.
pub open spec fn robots_refusal() -> Seq<char> {
    "robots.txt 不允许抓取"@
}

/// What checking `task` gives under `config`, with the robots.txt rules
/// `known` for each site: the filter's refusal first; then, where robots.txt
/// is respected, a refusal where the site's known rules disallow the URL,
/// the site's robots.txt URL where its rules are not known (unless that URL
/// does not parse); otherwise the task is fetched.
pub open spec fn task_check_ok(
    config: CrawlerConfig,
    known: Map<Seq<char>, (Seq<Seq<char>>, Seq<Seq<char>>)>,
    task: CrawlTask,
    r: TaskCheck,
) -> bool {
    match deny_reason(config, task.url@, task.depth) {
        Some(why) => refused_with(task, r, why),
        None => if !config.respect_robots {
            r is Go
        } else {
            match robots_answer(known, task.url@) {
                Some(true) => r is Go,
                Some(false) => refused_with(task, r, robots_refusal()),
                None => match url_parse(robots_key(task.url@)->Some_0 + "/robots.txt"@) {
                    Err(_) => r is Go,
                    Ok(ru) => r matches TaskCheck::NeedRobots(u) && u@ == ru,
                },
            }
        },
    }
}

/// Whether `r` refuses `task` with the error `why`.
pub open spec fn refused_with(task: CrawlTask, r: TaskCheck, why: Seq<char>) -> bool {
    r matches TaskCheck::Refused(CrawlResult::Failed { url, error, depth }) && url@ == task.url@.href && error@ == why
        && depth == task.depth
}

/// The URL and depth of each task.
pub open spec fn task_views(q: Seq<CrawlTask>) -> Seq<(UrlView, u32)> {
    q.map_values(|t: CrawlTask| (t.url@, t.depth))
}

/// The URL a link on a page at `depth` is queued under, if it passes: it
/// parses, its depth `depth + 1` is within `max_depth`, and the filter
/// lets it through at that depth.
pub open spec fn admissible(config: CrawlerConfig, depth: u32, l: Link) -> Option<UrlView> {
    match url_parse(l.url@) {
        Ok(u) => if depth < config.max_depth && deny_reason(config, u, (depth + 1) as u32) is None {
            Some(u)
        } else {
            None
        },
        Err(_) => None,
    }
}

/// What the links of a page at `depth` add, starting from the keys
/// `seen`: the tasks queued, in order; their keys, in the same order; and
/// the keys remembered afterwards. A link that passes is queued, and its
/// key remembered, where its key is new.
pub open spec fn admitted(config: CrawlerConfig, depth: u32, seen: Set<Seq<char>>, links: Seq<Link>) -> (
    Seq<(UrlView, u32)>,
    Seq<Seq<char>>,
    Set<Seq<char>>,
)
    decreases links.len(),
{
    if links.len() == 0 {
        (seq![], seq![], seen)
    } else {
        let (tasks, keys, s) = admitted(config, depth, seen, links.drop_last());
        let l = links.last();
        let k = dedup_key(l.url@);
        match admissible(config, depth, l) {
            Some(u) => if !s.contains(k) {
                (tasks.push((u, (depth + 1) as u32)), keys.push(k), s.insert(k))
            } else {
                (tasks, keys, s)
            },
            None => (tasks, keys, s),
        }
    }
}

/// What the seeds add, starting from the keys `seen`: the tasks queued,
/// each parsed and at depth 0, in order; their keys, in the same order;
/// and the keys remembered afterwards. Every seed's key is remembered, and
/// a seed is queued only where its key is new, so a seed listed twice, or
/// under two spellings with one key, is queued once.
pub open spec fn seeds_admitted(seen: Set<Seq<char>>, seeds: Seq<Seq<char>>) -> (
    Seq<(UrlView, u32)>,
    Seq<Seq<char>>,
    Set<Seq<char>>,
)
    decreases seeds.len(),
{
    if seeds.len() == 0 {
        (seq![], seq![], seen)
    } else {
        let (tasks, keys, s) = seeds_admitted(seen, seeds.drop_last());
        let k = dedup_key(seeds.last());
        if s.contains(k) {
            (tasks, keys, s)
        } else {
            (tasks.push((url_parse(seeds.last())->Ok_0, 0u32)), keys.push(k), s.insert(k))
        }
    }
}

/// Appending `key`, new to the keys `before`, to distinct keys that are
/// all in `before` gives distinct keys that are all in `after`, which is
/// `before` with `key` added.
proof fn lemma_issue_key(issued0: Seq<Seq<char>>, before: Set<Seq<char>>, after: Set<Seq<char>>, key: Seq<char>)
    requires
        issued0.no_duplicates(),
        forall|i: int| 0 <= i < issued0.len() ==> before.contains(#[trigger] issued0[i]),
        !before.contains(key),
        after == before.insert(key),
    ensures
        issued0.push(key).no_duplicates(),
        forall|i: int| 0 <= i < issued0.push(key).len() ==> after.contains(#[trigger] issued0.push(key)[i]),
{
    let s = issued0.push(key);
    assert(!issued0.contains(key));
    assert forall|a: int, b: int| 0 <= a < b < s.len() implies s[a] != s[b] by {
        if b == issued0.len() {
            assert(issued0.contains(issued0[a]));
        }
    }
    assert forall|k: int| 0 <= k < s.len() implies after.contains(#[trigger] s[k]) by {
        if k < issued0.len() {
            assert(before.contains(issued0[k]));
        }
    }
}

/// What the links of a page at `depth` add: one task per key added, each
/// one level deeper than the page, within `max_depth` and passing the
/// filter at that depth; no more tasks than links; the keys added are new
/// to `seen` and distinct, and what is remembered afterwards is `seen` with
/// them added.
pub proof fn lemma_admitted_links(config: CrawlerConfig, depth: u32, seen: Set<Seq<char>>, links: Seq<Link>)
    ensures
        ({
            let (tasks, keys, after) = admitted(config, depth, seen, links);
            &&& tasks.len() == keys.len() <= links.len()
            &&& forall|k: int|
                0 <= k < tasks.len() ==> (#[trigger] tasks[k]).1 == depth + 1 && depth < config.max_depth && deny_reason(
                    config,
                    tasks[k].0,
                    tasks[k].1,
                ) is None
            &&& keys.no_duplicates()
            &&& forall|k: int| 0 <= k < keys.len() ==> !seen.contains(#[trigger] keys[k])
            &&& after == seen + keys.to_set()
        }),
    decreases links.len(),
{
    if links.len() > 0 {
        lemma_admitted_links(config, depth, seen, links.drop_last());
        let (t0, k0, s0) = admitted(config, depth, seen, links.drop_last());
        let l = links.last();
        let key = dedup_key(l.url@);
        if admissible(config, depth, l) is Some && !s0.contains(key) {
            let u = admissible(config, depth, l)->Some_0;
            assert(t0.push((u, (depth + 1) as u32))[t0.len() as int] == (u, (depth + 1) as u32));
            assert forall|k: int| 0 <= k < t0.len() + 1 implies (#[trigger] t0.push((u, (depth + 1) as u32))[k]).1 == depth
                + 1 && depth < config.max_depth && deny_reason(
                config,
                t0.push((u, (depth + 1) as u32))[k].0,
                t0.push((u, (depth + 1) as u32))[k].1,
            ) is None by {
                if k < t0.len() {
                    assert(t0.push((u, (depth + 1) as u32))[k] == t0[k]);
                }
            }
            let k1 = k0.push(key);
            assert(!k0.contains(key));
            assert forall|a: int, b: int| 0 <= a < b < k1.len() implies k1[a] != k1[b] by {
                if b == k0.len() {
                    assert(k0.contains(k0[a]));
                }
            }
            assert forall|k: int| 0 <= k < k1.len() implies !seen.contains(#[trigger] k1[k]) by {
                if k < k0.len() {
                    assert(k1[k] == k0[k]);
                }
            }
            k0.lemma_push_to_set_commute(key);
            assert(s0.insert(key) =~= seen + k1.to_set());
        }
    } else {
        assert(Seq::<Seq<char>>::empty().to_set() =~= Set::<Seq<char>>::empty());
        assert(seen + Set::<Seq<char>>::empty() =~= seen);
    }
}

/// What the seeds add: one task per key added, each at depth 0 and the
/// parse of its seed; no more tasks than seeds; the keys added are new to
/// `seen` and distinct, and what is remembered afterwards is `seen` with
/// every seed's key added.
pub proof fn lemma_admitted_seeds(seen: Set<Seq<char>>, seeds: Seq<Seq<char>>)
    ensures
        ({
            let (tasks, keys, after) = seeds_admitted(seen, seeds);
            &&& tasks.len() == keys.len() <= seeds.len()
            &&& forall|k: int| 0 <= k < tasks.len() ==> (#[trigger] tasks[k]).1 == 0
            &&& keys.no_duplicates()
            &&& forall|k: int| 0 <= k < keys.len() ==> after.contains(#[trigger] keys[k])
            &&& forall|k: int| 0 <= k < keys.len() ==> !seen.contains(#[trigger] keys[k])
            &&& after == seen + seeds.map_values(|x: Seq<char>| dedup_key(x)).to_set()
        }),
    decreases seeds.len(),
{
    if seeds.len() > 0 {
        let p = seeds.drop_last();
        lemma_admitted_seeds(seen, p);
        let (t0, k0, s0) = seeds_admitted(seen, p);
        let key = dedup_key(seeds.last());
        assert(seeds.map_values(|x: Seq<char>| dedup_key(x)) =~= p.map_values(|x: Seq<char>| dedup_key(x)).push(key));
        p.map_values(|x: Seq<char>| dedup_key(x)).lemma_push_to_set_commute(key);
        if !s0.contains(key) {
            let k1 = k0.push(key);
            assert(!k0.contains(key)) by {
                if k0.contains(key) {
                    let j = choose|j: int| 0 <= j < k0.len() && k0[j] == key;
                    assert(s0.contains(k0[j]));
                }
            }
            assert forall|a: int, b: int| 0 <= a < b < k1.len() implies k1[a] != k1[b] by {
                if b == k0.len() {
                    assert(k0.contains(k0[a]));
                }
            }
            assert forall|k: int| 0 <= k < k1.len() implies !seen.contains(#[trigger] k1[k]) by {
                if k < k0.len() {
                    assert(k1[k] == k0[k]);
                }
            }
            assert forall|k: int| 0 <= k < k1.len() implies s0.insert(key).contains(#[trigger] k1[k]) by {
                if k < k0.len() {
                    assert(k1[k] == k0[k]);
                }
            }
            let tp = t0.push((url_parse(seeds.last())->Ok_0, 0u32));
            assert forall|k: int| 0 <= k < tp.len() implies (#[trigger] tp[k]).1 == 0 by {
                if k < t0.len() {
                    assert(tp[k] == t0[k]);
                }
            }
        }
        assert(s0.insert(key) =~= seen + seeds.map_values(|x: Seq<char>| dedup_key(x)).to_set());
    } else {
        assert(seeds.map_values(|x: Seq<char>| dedup_key(x)).to_set() =~= Set::<Seq<char>>::empty());
        assert(seen + Set::<Seq<char>>::empty() =~= seen);
    }
}

/// Whether a task may start at `now` (milliseconds on the caller's clock)
/// after tasks started at the instants `launches`: none has started, or
/// `delay` or more has passed since the last one.
pub open spec fn may_start(launches: Seq<u64>, delay: u64, now: u64) -> bool {
    launches.len() == 0 || (now >= launches.last() && now - launches.last() >= delay)
}

/// How long to wait, at `now`, until `delay` has passed since `last`:
/// `last + delay - now`, at most `u64::MAX`.
pub open spec fn pause_ms(last: u64, delay: u64, now: u64) -> u64 {
    if last + delay - now > u64::MAX {
        u64::MAX
    } else {
        (last + delay - now) as u64
    }
}

/// The state of a crawl, with the bookkeeping its invariant speaks of.
struct CrawlState {
    filter: UrlFilter,
    deduper: MemoryDeduper,
    robots: RobotsManager,
    queue: VecDeque<CrawlTask>,
    stats: CrawlStats,
    in_flight: usize,
    last_launch: Option<u64>,
    issued: Ghost<Seq<Seq<char>>>,
    launches: Ghost<Seq<u64>>,
}

impl CrawlState {
    /// The configuration of the crawl.
    spec fn config(&self) -> CrawlerConfig {
        self.filter.config()
    }

    /// The tasks waiting, in the order they are fetched.
    spec fn queue(&self) -> Seq<(UrlView, u32)> {
        task_views(self.queue@)
    }

    /// The counts so far.
    spec fn counts(&self) -> CrawlStats {
        self.stats
    }

    /// The number of tasks started and not yet recorded.
    spec fn in_flight(&self) -> nat {
        self.in_flight as nat
    }

    /// The keys of all URLs remembered, seeds and queued links.
    spec fn seen(&self) -> Set<Seq<char>> {
        self.deduper.seen()
    }

    /// The robots.txt rules learned for each site.
    spec fn robots_known(&self) -> Map<Seq<char>, (Seq<Seq<char>>, Seq<Seq<char>>)> {
        self.robots.known()
    }

    /// The keys of all tasks queued so far, seeds and links, in the order
    /// they were queued.
    spec fn issued(&self) -> Seq<Seq<char>> {
        self.issued@
    }

    /// The keys of the tasks handed out for fetching so far, in order.
    spec fn handed(&self) -> Seq<Seq<char>> {
        self.issued@.take(self.stats.pages_fetched as int)
    }

    /// The instants at which the tasks handed out were started, in order.
    spec fn launches(&self) -> Seq<u64> {
        self.launches@
    }

    /// The state is consistent.
    spec fn wf(&self) -> bool {
        &&& self.stats.pages_parsed + self.stats.pages_failed + self.in_flight == self.stats.pages_fetched
        &&& self.in_flight <= self.config().max_concurrency
        &&& self.robots.agent() == self.config().user_agent@
        &&& self.launches@.len() == self.stats.pages_fetched
        &&& self.last_launch == (if self.launches@.len() == 0 { None } else { Some(self.launches@.last()) })
        &&& forall|i: int, j: int|
            0 <= i < j < self.launches@.len() ==> #[trigger] self.launches@[j] >= #[trigger] self.launches@[i]
                + self.config().delay_ms
        &&& self.config().max_pages > 0 ==> self.stats.pages_fetched <= self.config().max_pages
        &&& self.issued@.len() == self.stats.pages_fetched + self.queue@.len()
        &&& self.issued@.no_duplicates()
        &&& forall|i: int| 0 <= i < self.issued@.len() ==> self.deduper.seen().contains(#[trigger] self.issued@[i])
        &&& self.deduper.seen().finite()
        &&& self.stats.links_queued <= self.deduper.seen().len()
        &&& forall|i: int| 0 <= i < self.queue@.len() ==> (#[trigger] self.queue@[i]).depth == 0
            || deny_reason(self.config(), self.queue@[i].url@, self.queue@[i].depth) is None
    }

    /// A crawl under `config` with nothing queued or counted yet.
    fn new(config: CrawlerConfig) -> (r: CrawlState)
        ensures
            r.wf(),
            r.config() == config,
            r.queue() == Seq::<(UrlView, u32)>::empty(),
            r.in_flight() == 0,
            r.seen() == Set::<Seq<char>>::empty(),
            r.issued() == Seq::<Seq<char>>::empty(),
            r.robots_known() == Map::<Seq<char>, (Seq<Seq<char>>, Seq<Seq<char>>)>::empty(),
            r.counts().pages_fetched == 0,
            r.counts().pages_parsed == 0,
            r.counts().pages_failed == 0,
            r.counts().links_discovered == 0,
            r.counts().links_queued == 0,
    {
        let deduper = crate::deduper::create_deduper();
        let robots = RobotsManager::new(config.user_agent.clone());
        let r = CrawlState {
            filter: UrlFilter::new(config),
            deduper,
            robots,
            queue: VecDeque::new(),
            stats: CrawlStats::default(),
            in_flight: 0,
            last_launch: None,
            issued: Ghost(Seq::empty()),
            launches: Ghost(Seq::empty()),
        };
        proof {
            r.deduper.lemma_keys_finite();
            assert(task_views(r.queue@) =~= Seq::<(UrlView, u32)>::empty());
        }
        r
    }

    /// Queues the seeds, each at depth 0, in order; every seed's key is
    /// remembered by the de-duplicator, and a seed whose key was already
    /// remembered is not queued again. Fails on the first seed that is not
    /// a URL.
    fn enqueue_seeds(&mut self) -> (r: Result<(), CrawlerError>)
        requires
            old(self).wf(),
        ensures
            final(self).wf(),
            final(self).config() == old(self).config(),
            final(self).robots_known() == old(self).robots_known(),
            final(self).counts() == old(self).counts(),
            final(self).in_flight() == old(self).in_flight(),
            r is Ok <==> first_unparsable(str_views(old(self).config().seeds@)) is None,
            match r {
                Ok(()) => {
                    let (tasks, keys, seen) = seeds_admitted(old(self).seen(), str_views(old(self).config().seeds@));
                    &&& final(self).queue() == old(self).queue() + tasks
                    &&& final(self).issued() == old(self).issued() + keys
                    &&& final(self).seen() == seen
                },
                Err(CrawlerError::UrlParse(msg)) => exists|i: int|
                    first_unparsable(str_views(old(self).config().seeds@)) == Some(i)
                        && url_parse(old(self).config().seeds@[i]@) == Err::<UrlView, Seq<char>>(msg@),
                Err(_) => false,
            },
    {
        let ghost sv = str_views(self.config().seeds@);
        let ghost q0 = self.queue();
        let ghost s0 = self.seen();
        let ghost k0 = self.issued();
        let n = self.filter.settings().seeds.len();
        let mut i: usize = 0;
        assert(sv.take(0) =~= Seq::<Seq<char>>::empty());
        assert(q0 + Seq::<(UrlView, u32)>::empty() =~= q0);
        assert(k0 + Seq::<Seq<char>>::empty() =~= k0);
        while i < n
            invariant
                self.wf(),
                i <= n == sv.len(),
                sv == str_views(self.config().seeds@),
                self.config() == old(self).config(),
                self.robots_known() == old(self).robots_known(),
                self.counts() == old(self).counts(),
                self.in_flight() == old(self).in_flight(),
                first_unparsable(sv.take(i as int)) is None,
                self.queue() == q0 + seeds_admitted(s0, sv.take(i as int)).0,
                self.issued() == k0 + seeds_admitted(s0, sv.take(i as int)).1,
                self.seen() == seeds_admitted(s0, sv.take(i as int)).2,
            decreases n - i,
        {
            assert(sv.take(i + 1).drop_last() =~= sv.take(i as int));
            let seed = &self.filter.settings().seeds[i];
            assert(seed@ == sv[i as int]);
            match WebUrl::parse(seed.as_str()) {
                Err(e) => {
                    proof {
                        crate::config::lemma_first_unparsable_prefix(sv, i as int);
                    }
                    return Err(CrawlerError::UrlParse(e));
                },
                Ok(u) => {
                    let ghost before = self.deduper.seen();
                    let ghost issued0 = self.issued@;
                    let ghost qb = self.queue@;
                    if self.deduper.try_add(seed.as_str()) {
                        proof {
                            self.deduper.lemma_keys_finite();
                            vstd::set_lib::lemma_len_subset(before, self.deduper.seen());
                            lemma_issue_key(issued0, before, self.deduper.seen(), dedup_key(seed@));
                            self.issued@ = issued0.push(dedup_key(seed@));
                        }
                        self.queue.push_back(CrawlTask::new(u, 0));
                        proof {
                            assert forall|j: int| 0 <= j < self.queue@.len() implies (#[trigger] self.queue@[j]).depth == 0
                                || deny_reason(self.config(), self.queue@[j].url@, self.queue@[j].depth) is None by {
                                if j < qb.len() {
                                    assert(self.queue@[j] == qb[j]);
                                }
                            }
                            assert(task_views(self.queue@) =~= task_views(qb).push((u@, 0u32)));
                        }
                    } else {
                        proof {
                            assert(before.insert(dedup_key(seed@)) =~= before);
                        }
                    }
                    assert(self.queue() =~= q0 + seeds_admitted(s0, sv.take(i + 1)).0);
                    assert(self.issued() =~= k0 + seeds_admitted(s0, sv.take(i + 1)).1);
                },
            }
            i = i + 1;
        }
        assert(sv.take(n as int) =~= sv);
        Ok(())
    }

    /// Decides what the caller does next, at `now_ms` milliseconds on the
    /// caller's clock. A task is started while fewer than
    /// `max_concurrency` are in flight, the page limit (when set) is not
    /// reached, the queue is not empty and `delay_ms` has passed since the
    /// last task started (else the caller pauses for the rest of it);
    /// otherwise the caller waits for a task in flight, or, with none in
    /// flight, the crawl is over.
    fn next_step(&mut self, now_ms: u64) -> (r: CrawlStep)
        requires
            old(self).wf(),
        ensures
            final(self).wf(),
            final(self).config() == old(self).config(),
            final(self).robots_known() == old(self).robots_known(),
            final(self).seen() == old(self).seen(),
            final(self).issued() == old(self).issued(),
            ({
                let c = old(self).counts();
                let blocked = old(self).in_flight() >= old(self).config().max_concurrency
                    || (old(self).config().max_pages > 0 && c.pages_fetched >= old(self).config().max_pages)
                    || c.pages_fetched == usize::MAX
                    || old(self).queue().len() == 0;
                match r {
                    CrawlStep::Finish => blocked && old(self).in_flight() == 0 && *final(self) == *old(self),
                    CrawlStep::Wait => blocked && old(self).in_flight() > 0 && *final(self) == *old(self),
                    CrawlStep::Pause(ms) => {
                        &&& !blocked
                        &&& !may_start(old(self).launches(), old(self).config().delay_ms, now_ms)
                        &&& ms == pause_ms(old(self).launches().last(), old(self).config().delay_ms, now_ms)
                        &&& *final(self) == *old(self)
                    },
                    CrawlStep::Fetch(t) => {
                        &&& !blocked
                        &&& may_start(old(self).launches(), old(self).config().delay_ms, now_ms)
                        &&& final(self).launches() == old(self).launches().push(now_ms)
                        &&& (t.url@, t.depth) == old(self).queue()[0]
                        &&& final(self).queue() == old(self).queue().drop_first()
                        &&& final(self).handed() == old(self).handed().push(old(self).issued()[c.pages_fetched as int])
                        &&& final(self).in_flight() == old(self).in_flight() + 1
                        &&& final(self).counts().pages_fetched == c.pages_fetched + 1
                        &&& final(self).counts().pages_parsed == c.pages_parsed
                        &&& final(self).counts().pages_failed == c.pages_failed
                        &&& final(self).counts().links_discovered == c.links_discovered
                        &&& final(self).counts().links_queued == c.links_queued
                    },
                }
            }),
    {
        let max_pages = self.filter.settings().max_pages;
        let blocked = self.in_flight >= self.filter.settings().max_concurrency
            || (max_pages > 0 && self.stats.pages_fetched >= max_pages)
            || self.stats.pages_fetched == usize::MAX
            || self.queue.len() == 0;
        if blocked {
            if self.in_flight > 0 {
                return CrawlStep::Wait;
            } else {
                return CrawlStep::Finish;
            }
        }
        let delay = self.filter.settings().delay_ms;
        match self.last_launch {
            Some(last) => {
                if now_ms < last || now_ms - last < delay {
                    let wait: u128 = last as u128 + delay as u128 - now_ms as u128;
                    let ms: u64 = if wait > 18446744073709551615u128 {
                        18446744073709551615u64
                    } else {
                        wait as u64
                    };
                    return CrawlStep::Pause(ms);
                }
            },
            None => {},
        }
        let ghost q = self.queue@;
        let ghost l0 = self.launches@;
        match self.queue.pop_front() {
            Some(task) => {
                self.stats.pages_fetched = self.stats.pages_fetched + 1;
                self.in_flight = self.in_flight + 1;
                self.last_launch = Some(now_ms);
                proof {
                    self.launches@ = l0.push(now_ms);
                    assert forall|i: int, j: int| 0 <= i < j < self.launches@.len() implies #[trigger] self.launches@[j]
                        >= #[trigger] self.launches@[i] + self.config().delay_ms by {
                        if j == l0.len() && i < l0.len() - 1 {
                            assert(l0[l0.len() - 1] >= l0[i] + self.config().delay_ms);
                        }
                    }
                    assert(self.issued@.take(self.stats.pages_fetched as int) =~= self.issued@.take(
                        (self.stats.pages_fetched - 1) as int,
                    ).push(self.issued@[(self.stats.pages_fetched - 1) as int]));
                    assert(task_views(self.queue@) =~= task_views(q).drop_first());
                    assert forall|j: int| 0 <= j < self.queue@.len() implies (#[trigger] self.queue@[j]).depth == 0
                        || deny_reason(self.config(), self.queue@[j].url@, self.queue@[j].depth) is None by {
                        assert(self.queue@[j] == q[j + 1]);
                    }
                }
                CrawlStep::Fetch(task)
            },
            None => CrawlStep::Wait,
        }
    }

    /// Whether a task handed out is fetched: a task that the filter
    /// refuses fails with the filter's reason; where robots.txt is
    /// respected, a task whose site's known rules disallow it fails, and a
    /// task whose site's rules are not known waits for them; any other task
    /// is fetched.
    fn check_task(&self, task: &CrawlTask) -> (r: TaskCheck)
        requires
            self.wf(),
        ensures
            task_check_ok(self.config(), self.robots_known(), *task, r),
    {
        match self.filter.should_crawl(&task.url, task.depth) {
            FilterResult::Deny(reason) => {
                return TaskCheck::Refused(
                    CrawlResult::Failed { url: task.url.to_string(), error: crate::config::owned(reason), depth: task.depth },
                );
            },
            FilterResult::Allow => {},
        }
        if !self.filter.settings().respect_robots {
            return TaskCheck::Go;
        }
        match self.robots.check(&task.url) {
            RobotsDecision::Known(true) => TaskCheck::Go,
            RobotsDecision::Known(false) => TaskCheck::Refused(
                CrawlResult::Failed {
                    url: task.url.to_string(),
                    error: crate::config::owned("robots.txt 不允许抓取"),
                    depth: task.depth,
                },
            ),
            RobotsDecision::Fetch { robots_url, .. } => TaskCheck::NeedRobots(robots_url),
        }
    }

    /// Learns the rules of `task`'s site from its robots.txt `response`
    /// and checks the task again, now answered by them: fetched where they
    /// allow its URL (and the filter passes it), else refused.
    fn learn_robots(&mut self, task: &CrawlTask, response: &Option<(u16, String)>) -> (r: TaskCheck)
        requires
            old(self).wf(),
        ensures
            final(self).wf(),
            final(self).config() == old(self).config(),
            final(self).queue() == old(self).queue(),
            final(self).issued() == old(self).issued(),
            final(self).seen() == old(self).seen(),
            final(self).in_flight() == old(self).in_flight(),
            final(self).counts() == old(self).counts(),
            match robots_key(task.url@) {
                None => final(self).robots_known() == old(self).robots_known(),
                Some(k) => final(self).robots_known() == old(self).robots_known().insert(
                    k,
                    response_rules(old(self).config().user_agent@, *response),
                ),
            },
            task_check_ok(final(self).config(), final(self).robots_known(), *task, r),
            !(r is NeedRobots),
    {
        let _ = self.robots.learn(&task.url, response);
        let r = self.check_task(task);
        proof {
            if robots_key(task.url@) is Some {
                lemma_learned_site_is_answered(
                    self.config(),
                    old(self).robots_known(),
                    *task,
                    response_rules(self.config().user_agent@, *response),
                    r,
                );
            }
        }
        r
    }

    /// Records the outcome of a task in flight. A failure is counted. A
    /// page is counted with its links, and each link that parses, passes
    /// the filter one level deeper and is new to the de-duplicator is
    /// queued, in the page's order.
    fn record_result(&mut self, result: &CrawlResult)
        requires
            old(self).wf(),
            old(self).in_flight() > 0,
        ensures
            final(self).wf(),
            final(self).config() == old(self).config(),
            final(self).robots_known() == old(self).robots_known(),
            final(self).in_flight() == old(self).in_flight() - 1,
            final(self).counts().pages_fetched == old(self).counts().pages_fetched,
            match *result {
                CrawlResult::Failed { .. } => {
                    &&& final(self).counts().pages_failed == old(self).counts().pages_failed + 1
                    &&& final(self).counts().pages_parsed == old(self).counts().pages_parsed
                    &&& final(self).counts().links_discovered == old(self).counts().links_discovered
                    &&& final(self).counts().links_queued == old(self).counts().links_queued
                    &&& final(self).queue() == old(self).queue()
                    &&& final(self).issued() == old(self).issued()
                    &&& final(self).seen() == old(self).seen()
                },
                CrawlResult::Success(page) => {
                    let (tasks, keys, seen) = admitted(old(self).config(), page.depth, old(self).seen(), page.links@);
                    &&& final(self).counts().pages_parsed == old(self).counts().pages_parsed + 1
                    &&& final(self).counts().pages_failed == old(self).counts().pages_failed
                    &&& final(self).counts().links_discovered == crate::parser::capped(
                        (old(self).counts().links_discovered + page.links@.len()) as nat,
                    )
                    &&& final(self).counts().links_queued == old(self).counts().links_queued + tasks.len()
                    &&& final(self).queue() == old(self).queue() + tasks
                    &&& final(self).issued() == old(self).issued() + keys
                    &&& final(self).seen() == seen
                },
            },
    {
        self.in_flight = self.in_flight - 1;
        match result {
            CrawlResult::Failed { .. } => {
                self.stats.pages_failed = self.stats.pages_failed + 1;
            },
            CrawlResult::Success(page) => {
                self.stats.pages_parsed = self.stats.pages_parsed + 1;
                let n = page.links.len();
                self.stats.links_discovered = if self.stats.links_discovered > usize::MAX - n {
                    usize::MAX
                } else {
                    self.stats.links_discovered + n
                };
                self.queue_links(page);
            },
        }
    }

    /// Queues the links of `page` that pass and are new.
    fn queue_links(&mut self, page: &Page)
        requires
            old(self).wf(),
        ensures
            ({
                let (tasks, keys, seen) = admitted(old(self).config(), page.depth, old(self).seen(), page.links@);
                &&& final(self).wf()
                &&& final(self).config() == old(self).config()
                &&& final(self).robots_known() == old(self).robots_known()
                &&& final(self).in_flight() == old(self).in_flight()
                &&& final(self).counts().pages_fetched == old(self).counts().pages_fetched
                &&& final(self).counts().pages_parsed == old(self).counts().pages_parsed
                &&& final(self).counts().pages_failed == old(self).counts().pages_failed
                &&& final(self).counts().links_discovered == old(self).counts().links_discovered
                &&& final(self).counts().links_queued == old(self).counts().links_queued + tasks.len()
                &&& final(self).queue() == old(self).queue() + tasks
                &&& final(self).issued() == old(self).issued() + keys
                &&& final(self).seen() == seen
            }),
    {
        let ghost q0 = self.queue();
        let ghost s0 = self.seen();
        let ghost k0 = self.issued();
        let ghost c0 = self.counts();
        let ghost config = self.config();
        let mut i: usize = 0;
        assert(page.links@.take(0) =~= Seq::<Link>::empty());
        assert(q0 + Seq::<(UrlView, u32)>::empty() =~= q0);
        assert(k0 + Seq::<Seq<char>>::empty() =~= k0);
        while i < page.links.len()
            invariant
                self.wf(),
                i <= page.links@.len(),
                self.config() == config,
                self.robots_known() == old(self).robots_known(),
                self.in_flight() == old(self).in_flight(),
                self.counts().pages_fetched == c0.pages_fetched,
                self.counts().pages_parsed == c0.pages_parsed,
                self.counts().pages_failed == c0.pages_failed,
                self.counts().links_discovered == c0.links_discovered,
                self.counts().links_queued == c0.links_queued + admitted(config, page.depth, s0, page.links@.take(i as int)).0.len(),
                self.queue() == q0 + admitted(config, page.depth, s0, page.links@.take(i as int)).0,
                self.issued() == k0 + admitted(config, page.depth, s0, page.links@.take(i as int)).1,
                self.seen() == admitted(config, page.depth, s0, page.links@.take(i as int)).2,
            decreases page.links@.len() - i,
        {
            assert(page.links@.take(i + 1).drop_last() =~= page.links@.take(i as int));
            let link = &page.links[i];
            let ghost prev = admitted(config, page.depth, s0, page.links@.take(i as int));
            match WebUrl::parse(link.url.as_str()) {
                Ok(u) => {
                    if page.depth < self.filter.settings().max_depth {
                        let depth = page.depth + 1;
                        if self.filter.should_crawl(&u, depth).is_allowed() {
                            let ghost before = self.deduper.seen();
                            let ghost issued0 = self.issued@;
                            let ghost qb = self.queue@;
                            if self.deduper.try_add(link.url.as_str()) {
                                proof {
                                    self.deduper.lemma_keys_finite();
                                    lemma_issue_key(issued0, before, self.deduper.seen(), dedup_key(link.url@));
                                    self.issued@ = issued0.push(dedup_key(link.url@));
                                }
                                let remembered = self.deduper.len();
                                assert(remembered == before.len() + 1);
                                self.queue.push_back(CrawlTask::new(u, depth));
                                self.stats.links_queued = self.stats.links_queued + 1;
                                proof {
                                    assert forall|j: int| 0 <= j < self.queue@.len() implies (#[trigger] self.queue@[j]).depth
                                        == 0 || deny_reason(self.config(), self.queue@[j].url@, self.queue@[j].depth) is None by {
                                        if j < qb.len() {
                                            assert(self.queue@[j] == qb[j]);
                                        }
                                    }
                                    assert(task_views(self.queue@) =~= task_views(qb).push((u@, depth)));
                                }
                            }
                        }
                    }
                },
                Err(_) => {},
            }
            proof {
                assert(admitted(config, page.depth, s0, page.links@.take(i + 1)).0.len() <= prev.0.len() + 1);
            }
            assert(self.queue() =~= q0 + admitted(config, page.depth, s0, page.links@.take(i + 1)).0);
            assert(self.issued() =~= k0 + admitted(config, page.depth, s0, page.links@.take(i + 1)).1);
            i = i + 1;
        }
        assert(page.links@.take(i as int) =~= page.links@);
    }

    /// Sets the crawl's total duration.
    fn finish(&mut self, duration: std::time::Duration)
        requires
            old(self).wf(),
        ensures
            final(self).wf(),
            final(self).config() == old(self).config(),
            final(self).robots_known() == old(self).robots_known(),
            final(self).queue() == old(self).queue(),
            final(self).issued() == old(self).issued(),
            final(self).seen() == old(self).seen(),
            final(self).in_flight() == old(self).in_flight(),
            final(self).counts().pages_fetched == old(self).counts().pages_fetched,
            final(self).counts().pages_parsed == old(self).counts().pages_parsed,
            final(self).counts().pages_failed == old(self).counts().pages_failed,
            final(self).counts().links_discovered == old(self).counts().links_discovered,
            final(self).counts().links_queued == old(self).counts().links_queued,
            final(self).counts().total_duration == duration,
    {
        self.stats.total_duration = duration;
    }

    /// The counts so far.
    fn stats(&self) -> (r: CrawlStats)
        ensures
            r == self.counts(),
    {
        self.stats
    }

    /// The number of tasks started and not yet recorded.
    fn tasks_in_flight(&self) -> (r: usize)
        ensures
            r == self.in_flight(),
    {
        self.in_flight
    }

    /// The configuration of the crawl.
    fn config_ref(&self) -> (r: &CrawlerConfig)
        ensures
            *r == self.config(),
    {
        self.filter.settings()
    }
}

/// The state of a crawl.
pub struct Crawler {
    state: CrawlState,
}

/// A configuration with nothing in it: no seeds, domains or patterns,
/// every number 0, empty strings, JSON output and every switch off.
fn empty_config() -> (r: CrawlerConfig)
    ensures
        r.seeds@.len() == 0,
        r.max_depth == 0,
        r.max_concurrency == 0,
        r.timeout_secs == 0,
        r.delay_ms == 0,
        r.retry_count == 0,
        r.retry_delay_ms == 0,
        r.allowed_domains@.len() == 0,
        r.exclude_patterns@.len() == 0,
        r.include_patterns@.len() == 0,
        r.page_template is None,
        r.page_range is None,
        r.user_agent@.len() == 0,
        r.max_pages == 0,
        r.format == crate::config::OutputFormat::Json,
        r.output@.len() == 0,
        !r.respect_robots,
        !r.verbose,
{
    CrawlerConfig {
        seeds: Vec::new(),
        max_depth: 0,
        max_concurrency: 0,
        timeout_secs: 0,
        delay_ms: 0,
        retry_count: 0,
        retry_delay_ms: 0,
        allowed_domains: Vec::new(),
        exclude_patterns: Vec::new(),
        include_patterns: Vec::new(),
        page_template: None,
        page_range: None,
        user_agent: String::new(),
        max_pages: 0,
        format: crate::config::OutputFormat::Json,
        output: String::new(),
        respect_robots: false,
        verbose: false,
    }
}

impl Crawler {
    /// The state is consistent.
    #[verifier::type_invariant]
    spec fn consistent(&self) -> bool {
        self.state.wf()
    }

    /// The state is consistent; every crawl keeps this.
    pub closed spec fn wf(&self) -> bool {
        self.state.wf()
    }

    /// The configuration of the crawl.
    pub closed spec fn config(&self) -> CrawlerConfig {
        self.state.config()
    }

    /// The tasks waiting, in the order they are fetched.
    pub closed spec fn queue(&self) -> Seq<(UrlView, u32)> {
        self.state.queue()
    }

    /// The counts so far.
    pub closed spec fn counts(&self) -> CrawlStats {
        self.state.counts()
    }

    /// The number of tasks started and not yet recorded.
    pub closed spec fn in_flight(&self) -> nat {
        self.state.in_flight()
    }

    /// The keys of all URLs remembered, seeds and queued links.
    pub closed spec fn seen(&self) -> Set<Seq<char>> {
        self.state.seen()
    }

    /// The keys of all tasks queued so far, seeds and links, in the order
    /// they were queued.
    pub closed spec fn issued(&self) -> Seq<Seq<char>> {
        self.state.issued()
    }

    /// The keys of the tasks handed out for fetching so far, in order.
    pub closed spec fn handed(&self) -> Seq<Seq<char>> {
        self.state.handed()
    }

    /// The robots.txt rules learned for each site.
    pub closed spec fn robots_known(&self) -> Map<Seq<char>, (Seq<Seq<char>>, Seq<Seq<char>>)> {
        self.state.robots_known()
    }

    /// The instants at which the tasks handed out were started, in order.
    pub closed spec fn launches(&self) -> Seq<u64> {
        self.state.launches()
    }

    /// Takes the state out, leaving an empty one in its place.
    fn take_state(&mut self) -> (st: CrawlState)
        ensures
            st == old(self).state,
            st.wf(),
    {
        proof {
            use_type_invariant(&*self);
        }
        let mut st = CrawlState::new(empty_config());
        std::mem::swap(&mut st, &mut self.state);
        st
    }

    /// A crawl under `config` with nothing queued or counted yet.
    pub fn new(config: CrawlerConfig) -> (r: Crawler)
        ensures
            r.wf(),
            r.config() == config,
            r.queue() == Seq::<(UrlView, u32)>::empty(),
            r.in_flight() == 0,
            r.seen() == Set::<Seq<char>>::empty(),
            r.issued() == Seq::<Seq<char>>::empty(),
            r.robots_known() == Map::<Seq<char>, (Seq<Seq<char>>, Seq<Seq<char>>)>::empty(),
            r.counts().pages_fetched == 0,
            r.counts().pages_parsed == 0,
            r.counts().pages_failed == 0,
            r.counts().links_discovered == 0,
            r.counts().links_queued == 0,
    {
        Crawler { state: CrawlState::new(config) }
    }

    /// Queues the seeds, each at depth 0, in order; every seed's key is
    /// remembered by the de-duplicator, and a seed whose key was already
    /// remembered is not queued again. Fails on the first seed that is not
    /// a URL.
    pub fn enqueue_seeds(&mut self) -> (r: Result<(), CrawlerError>)
        ensures
            final(self).wf(),
            final(self).config() == old(self).config(),
            final(self).robots_known() == old(self).robots_known(),
            final(self).counts() == old(self).counts(),
            final(self).in_flight() == old(self).in_flight(),
            r is Ok <==> first_unparsable(str_views(old(self).config().seeds@)) is None,
            match r {
                Ok(()) => {
                    let (tasks, keys, seen) = seeds_admitted(old(self).seen(), str_views(old(self).config().seeds@));
                    &&& final(self).queue() == old(self).queue() + tasks
                    &&& final(self).issued() == old(self).issued() + keys
                    &&& final(self).seen() == seen
                },
                Err(CrawlerError::UrlParse(msg)) => exists|i: int|
                    first_unparsable(str_views(old(self).config().seeds@)) == Some(i)
                        && url_parse(old(self).config().seeds@[i]@) == Err::<UrlView, Seq<char>>(msg@),
                Err(_) => false,
            },
    {
        let mut st = self.take_state();
        let r = st.enqueue_seeds();
        self.state = st;
        r
    }

    /// Decides what the caller does next, at `now_ms` milliseconds on the
    /// caller's clock. A task is started while fewer than
    /// `max_concurrency` are in flight, the page limit (when set) is not
    /// reached, the queue is not empty and `delay_ms` has passed since the
    /// last task started (else the caller pauses for the rest of it);
    /// otherwise the caller waits for a task in flight, or, with none in
    /// flight, the crawl is over.
    pub fn next_step(&mut self, now_ms: u64) -> (r: CrawlStep)
        ensures
            final(self).wf(),
            final(self).config() == old(self).config(),
            final(self).robots_known() == old(self).robots_known(),
            final(self).seen() == old(self).seen(),
            final(self).issued() == old(self).issued(),
            ({
                let c = old(self).counts();
                let blocked = old(self).in_flight() >= old(self).config().max_concurrency
                    || (old(self).config().max_pages > 0 && c.pages_fetched >= old(self).config().max_pages)
                    || c.pages_fetched == usize::MAX
                    || old(self).queue().len() == 0;
                match r {
                    CrawlStep::Finish => blocked && old(self).in_flight() == 0 && *final(self) == *old(self),
                    CrawlStep::Wait => blocked && old(self).in_flight() > 0 && *final(self) == *old(self),
                    CrawlStep::Pause(ms) => {
                        &&& !blocked
                        &&& !may_start(old(self).launches(), old(self).config().delay_ms, now_ms)
                        &&& ms == pause_ms(old(self).launches().last(), old(self).config().delay_ms, now_ms)
                        &&& *final(self) == *old(self)
                    },
                    CrawlStep::Fetch(t) => {
                        &&& !blocked
                        &&& may_start(old(self).launches(), old(self).config().delay_ms, now_ms)
                        &&& final(self).launches() == old(self).launches().push(now_ms)
                        &&& (t.url@, t.depth) == old(self).queue()[0]
                        &&& final(self).queue() == old(self).queue().drop_first()
                        &&& final(self).handed() == old(self).handed().push(old(self).issued()[c.pages_fetched as int])
                        &&& final(self).in_flight() == old(self).in_flight() + 1
                        &&& final(self).counts().pages_fetched == c.pages_fetched + 1
                        &&& final(self).counts().pages_parsed == c.pages_parsed
                        &&& final(self).counts().pages_failed == c.pages_failed
                        &&& final(self).counts().links_discovered == c.links_discovered
                        &&& final(self).counts().links_queued == c.links_queued
                    },
                }
            }),
    {
        let mut st = self.take_state();
        let r = st.next_step(now_ms);
        self.state = st;
        r
    }

    /// Whether a task handed out is fetched: a task that the filter
    /// refuses fails with the filter's reason; where robots.txt is
    /// respected, a task whose site's known rules disallow it fails, and a
    /// task whose site's rules are not known waits for them; any other task
    /// is fetched.
    pub fn check_task(&self, task: &CrawlTask) -> (r: TaskCheck)
        ensures
            task_check_ok(self.config(), self.robots_known(), *task, r),
    {
        proof {
            use_type_invariant(self);
        }
        self.state.check_task(task)
    }

    /// Learns the rules of `task`'s site from its robots.txt `response`
    /// and checks the task again, now answered by them: fetched where they
    /// allow its URL (and the filter passes it), else refused; never asked
    /// to wait for robots.txt again. Nothing else changes.
    pub fn learn_robots(&mut self, task: &CrawlTask, response: &Option<(u16, String)>) -> (r: TaskCheck)
        ensures
            final(self).wf(),
            final(self).config() == old(self).config(),
            final(self).queue() == old(self).queue(),
            final(self).issued() == old(self).issued(),
            final(self).seen() == old(self).seen(),
            final(self).in_flight() == old(self).in_flight(),
            final(self).counts() == old(self).counts(),
            match robots_key(task.url@) {
                None => final(self).robots_known() == old(self).robots_known(),
                Some(k) => final(self).robots_known() == old(self).robots_known().insert(
                    k,
                    response_rules(old(self).config().user_agent@, *response),
                ),
            },
            task_check_ok(final(self).config(), final(self).robots_known(), *task, r),
            !(r is NeedRobots),
    {
        let mut st = self.take_state();
        let r = st.learn_robots(task, response);
        self.state = st;
        r
    }

    /// Records the outcome of a task in flight. A failure is counted. A
    /// page is counted with its links, and each link that parses, passes
    /// the filter one level deeper and is new to the de-duplicator is
    /// queued, in the page's order.
    pub fn record_result(&mut self, result: &CrawlResult)
        requires
            old(self).in_flight() > 0,
        ensures
            final(self).wf(),
            final(self).config() == old(self).config(),
            final(self).robots_known() == old(self).robots_known(),
            final(self).in_flight() == old(self).in_flight() - 1,
            final(self).counts().pages_fetched == old(self).counts().pages_fetched,
            match *result {
                CrawlResult::Failed { .. } => {
                    &&& final(self).counts().pages_failed == old(self).counts().pages_failed + 1
                    &&& final(self).counts().pages_parsed == old(self).counts().pages_parsed
                    &&& final(self).counts().links_discovered == old(self).counts().links_discovered
                    &&& final(self).counts().links_queued == old(self).counts().links_queued
                    &&& final(self).queue() == old(self).queue()
                    &&& final(self).issued() == old(self).issued()
                    &&& final(self).seen() == old(self).seen()
                },
                CrawlResult::Success(page) => {
                    let (tasks, keys, seen) = admitted(old(self).config(), page.depth, old(self).seen(), page.links@);
                    &&& final(self).counts().pages_parsed == old(self).counts().pages_parsed + 1
                    &&& final(self).counts().pages_failed == old(self).counts().pages_failed
                    &&& final(self).counts().links_discovered == crate::parser::capped(
                        (old(self).counts().links_discovered + page.links@.len()) as nat,
                    )
                    &&& final(self).counts().links_queued == old(self).counts().links_queued + tasks.len()
                    &&& final(self).queue() == old(self).queue() + tasks
                    &&& final(self).issued() == old(self).issued() + keys
                    &&& final(self).seen() == seen
                },
            },
    {
        let mut st = self.take_state();
        st.record_result(result);
        self.state = st;
    }

    /// Sets the crawl's total duration.
    pub fn finish(&mut self, duration: std::time::Duration)
        ensures
            final(self).wf(),
            final(self).config() == old(self).config(),
            final(self).robots_known() == old(self).robots_known(),
            final(self).queue() == old(self).queue(),
            final(self).issued() == old(self).issued(),
            final(self).seen() == old(self).seen(),
            final(self).in_flight() == old(self).in_flight(),
            final(self).counts().pages_fetched == old(self).counts().pages_fetched,
            final(self).counts().pages_parsed == old(self).counts().pages_parsed,
            final(self).counts().pages_failed == old(self).counts().pages_failed,
            final(self).counts().links_discovered == old(self).counts().links_discovered,
            final(self).counts().links_queued == old(self).counts().links_queued,
            final(self).counts().total_duration == duration,
    {
        let mut st = self.take_state();
        st.finish(duration);
        self.state = st;
    }

    /// The counts so far.
    pub fn stats(&self) -> (r: CrawlStats)
        ensures
            r == self.counts(),
    {
        self.state.stats()
    }

    /// The number of tasks started and not yet recorded.
    pub fn tasks_in_flight(&self) -> (r: usize)
        ensures
            r == self.in_flight(),
    {
        self.state.tasks_in_flight()
    }

    /// The configuration of the crawl.
    pub fn config_ref(&self) -> (r: &CrawlerConfig)
        ensures
            *r == self.config(),
    {
        self.state.config_ref()
    }

    /// What a started task yields: the parsed page for a fetched body, or
    /// a failure with the fetch error's message.
    pub fn task_result(task: &CrawlTask, outcome: Result<FetchResult, String>) -> (r: CrawlResult)
        ensures
            match outcome {
                Ok(f) => r matches CrawlResult::Success(page) && page.url@ == task.url@.href
                    && crate::parser::opt_chars(page.title) == crate::parser::page_title(f.body@)
                    && crate::parser::opt_chars(page.content) == crate::parser::page_content(f.body@)
                    && crate::parser::link_views(page.links@) == crate::parser::page_links(task.url@, f.body@)
                    && page.status_code == f.status && page.depth == task.depth
                    && page.fetch_duration_ms == f.duration_ms,
                Err(msg) => r matches CrawlResult::Failed { url, error, depth } && url@ == task.url@.href
                    && error@ == msg@ && depth == task.depth,
            },
    {
        match outcome {
            Ok(f) => CrawlResult::Success(
                HtmlParser::parse(&task.url, f.body.as_str(), task.depth, f.status, f.duration_ms),
            ),
            Err(msg) => CrawlResult::Failed { url: task.url.to_string(), error: msg, depth: task.depth },
        }
    }
}

/// What every reachable state of a crawl keeps: every page started is
/// parsed, failed or still in flight; no more tasks are in flight than
/// `max_concurrency`; one start instant is kept per task started, and any
/// two tasks started are `delay_ms` or more apart; with a page limit, no more pages are started than the
/// limit; no two tasks ever queued, seeds and links alike, share a key, so
/// no two tasks handed out for fetching share a key; every queued task's
/// key is remembered; the tasks queued are those handed out and those
/// waiting; every waiting task is a seed or passes the filter at its
/// depth, so no waiting task is deeper than `max_depth`.
pub proof fn lemma_crawl_state(c: Crawler)
    requires
        c.wf(),
    ensures
        c.counts().pages_parsed + c.counts().pages_failed + c.in_flight() == c.counts().pages_fetched,
        c.in_flight() <= c.config().max_concurrency,
        c.launches().len() == c.counts().pages_fetched,
        forall|i: int, j: int|
            0 <= i < j < c.launches().len() ==> #[trigger] c.launches()[j] >= #[trigger] c.launches()[i]
                + c.config().delay_ms,
        c.config().max_pages > 0 ==> c.counts().pages_fetched <= c.config().max_pages,
        c.issued().no_duplicates(),
        c.handed().no_duplicates(),
        c.handed().len() == c.counts().pages_fetched,
        c.issued().len() == c.counts().pages_fetched + c.queue().len(),
        c.handed() == c.issued().take(c.counts().pages_fetched as int),
        forall|i: int| 0 <= i < c.issued().len() ==> c.seen().contains(#[trigger] c.issued()[i]),
        forall|i: int| 0 <= i < c.queue().len() ==> (#[trigger] c.queue()[i]).1 == 0
            || deny_reason(c.config(), c.queue()[i].0, c.queue()[i].1) is None,
        forall|i: int| 0 <= i < c.queue().len() ==> (#[trigger] c.queue()[i]).1 <= c.config().max_depth,
{
    let st = c.state;
    let h = c.handed();
    assert forall|a: int, b: int| 0 <= a < b < h.len() implies h[a] != h[b] by {
        assert(h[a] == c.issued()[a] && h[b] == c.issued()[b]);
    }
    assert forall|i: int| 0 <= i < c.queue().len() implies (#[trigger] c.queue()[i]).1 == 0
        || deny_reason(c.config(), c.queue()[i].0, c.queue()[i].1) is None by {
        assert(c.queue()[i] == (st.queue@[i].url@, st.queue@[i].depth));
    }
}

/// A task that checking lets through (`Go`, from [`Crawler::check_task`]
/// or [`Crawler::learn_robots`]) passes the filter at its
/// depth: it is no deeper than `max_depth`, its URL passes the domain and
/// exclude lists and (with include patterns) matches one, and it is http(s).
/// Where robots.txt is respected, its site's known rules allow it, or its
/// URL has no host, or its site's robots.txt URL does not parse. Together
/// with [`lemma_crawl_state`], which keeps the keys of the tasks handed out
/// distinct, no page is fetched twice and every page fetched passes the
/// filter and robots.txt.
pub proof fn lemma_go_is_admissible(
    config: CrawlerConfig,
    known: Map<Seq<char>, (Seq<Seq<char>>, Seq<Seq<char>>)>,
    task: CrawlTask,
    r: TaskCheck,
)
    requires
        task_check_ok(config, known, task, r),
        r is Go,
    ensures
        deny_reason(config, task.url@, task.depth) is None,
        task.depth <= config.max_depth,
        crate::config::url_permitted(str_views(config.allowed_domains@), str_views(config.exclude_patterns@), task.url@),
        crate::filter::is_web_scheme(task.url@.scheme),
        config.respect_robots ==> (robots_answer(known, task.url@) == Some(true) || (robots_answer(known, task.url@) is None
            && url_parse(robots_key(task.url@)->Some_0 + "/robots.txt"@) is Err)),
{
}

/// Once a site's robots.txt rules are learned, a task of that site is
/// answered without waiting again: checking it gives `Go` or a refusal,
/// never `NeedRobots`.
pub proof fn lemma_learned_site_is_answered(
    config: CrawlerConfig,
    known: Map<Seq<char>, (Seq<Seq<char>>, Seq<Seq<char>>)>,
    task: CrawlTask,
    rules: (Seq<Seq<char>>, Seq<Seq<char>>),
    r: TaskCheck,
)
    requires
        robots_key(task.url@) is Some,
        task_check_ok(config, known.insert(robots_key(task.url@)->Some_0, rules), task, r),
    ensures
        !(r is NeedRobots),
{
    crate::robots::lemma_remembered_rules_answer(known, task.url@, rules);
}

} // verus!
