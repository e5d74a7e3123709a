use vstd::prelude::*;

verus! {

/// Requests answered with status 429 that are retried before giving up.
pub const MAX_RETRIES: usize = 10;

/// Seconds of back-off per attempt: attempt `i` sleeps `i * BACKOFF_SECONDS`.
pub const BACKOFF_SECONDS: u64 = 2;

/// The span of one paging window: 120 days, in seconds.
pub const WINDOW_SECONDS: i64 = 120 * 86400;

/// Quota weight of one intraday request.
pub const INTRADAY_WEIGHT: usize = 5;

/// Quota weight of one catalog request.
pub const CATALOG_WEIGHT: usize = 10;

/// Why a fetch failed.
#[derive(PartialEq, Eq, Structural, Clone, Copy, Debug)]
pub enum FetchError {
    /// The lower bound lies after the upper bound.
    InvalidRange,
    /// Every attempt was answered with status 429.
    RateLimitExhausted,
    /// The provider answered with this unsuccessful status.
    Status(u16),
}

/// What to do with the provider's answer to one attempt.
#[derive(PartialEq, Eq, Structural, Clone, Copy, Debug)]
pub enum ResponseAction {
    /// Sleep this many seconds, then send the request again.
    Retry { sleep_secs: u64 },
    /// The provider holds nothing here: the result is empty.
    Empty,
    /// Read the records of the body.
    Body,
    /// Give up with this error.
    Fail(FetchError),
}

/// The answer to attempt `attempt` (counted from 1) that came back with
/// `status`: a 429 is retried after `attempt × BACKOFF_SECONDS` seconds up to
/// `MAX_RETRIES` times and then gives up; a 404 is an empty result; a
/// success is read; anything else is an error carrying the status.
pub open spec fn response_action(attempt: nat, status: u16) -> ResponseAction {
    if status == 429 {
        if attempt <= MAX_RETRIES {
            ResponseAction::Retry { sleep_secs: (attempt * BACKOFF_SECONDS) as u64 }
        } else {
            ResponseAction::Fail(FetchError::RateLimitExhausted)
        }
    } else if status == 404 {
        ResponseAction::Empty
    } else if 200 <= status < 300 {
        ResponseAction::Body
    } else {
        ResponseAction::Fail(FetchError::Status(status))
    }
}

/// Decides what to do with the status of attempt `attempt`.
pub fn on_response(attempt: usize, status: u16) -> (r: ResponseAction)
    ensures
        r == response_action(attempt as nat, status),
{
    if status == 429 {
        if attempt <= MAX_RETRIES {
            ResponseAction::Retry { sleep_secs: attempt as u64 * BACKOFF_SECONDS }
        } else {
            ResponseAction::Fail(FetchError::RateLimitExhausted)
        }
    } else if status == 404 {
        ResponseAction::Empty
    } else if 200 <= status && status < 300 {
        ResponseAction::Body
    } else {
        ResponseAction::Fail(FetchError::Status(status))
    }
}

/// Consecutive 429 answers are retried with a sleep that grows with the
/// attempt: attempts 1 to 10 sleep 2, 4, ..., 20 seconds and are sent again;
/// the 11th consecutive 429 ends the request as rate-limit exhausted.
pub proof fn lemma_rate_limit_retries(attempt: nat)
    requires
        1 <= attempt <= MAX_RETRIES + 1,
    ensures
        attempt <= MAX_RETRIES ==> response_action(attempt, 429) == (ResponseAction::Retry {
            sleep_secs: (2 * attempt) as u64,
        }),
        attempt == MAX_RETRIES + 1 ==> response_action(attempt, 429) == ResponseAction::Fail(
            FetchError::RateLimitExhausted,
        ),
{
}

/// An advisory tally of the quota weight that requests have cost.
pub struct RequestCounter {
    pub total: usize,
}

impl RequestCounter {
    /// A tally at zero.
    pub fn new() -> (r: Self)
        ensures
            r.total == 0,
    {
        RequestCounter { total: 0 }
    }

    /// Adds the weight of one attempt, saturating at `usize::MAX`.
    pub fn charge(&mut self, weight: Option<usize>)
        ensures
            final(self).total == match weight {
                Some(w) => if old(self).total + w <= usize::MAX {
                    (old(self).total + w) as usize
                } else {
                    usize::MAX
                },
                None => old(self).total,
            },
    {
        if let Some(w) = weight {
            self.total = self.total.saturating_add(w);
        }
    }
}

/// One paging window: the records stamped from `from` to `to`, in seconds.
#[derive(PartialEq, Eq, Structural, Clone, Copy, Debug)]
pub struct Window {
    pub from: i64,
    pub to: i64,
}

/// The windows that walk back from `cursor` to `start`: each spans at most
/// `WINDOW_SECONDS`, the first ends at `cursor`, each begins where the next
/// ends, and the last begins at `start`.
pub open spec fn windows(cursor: i64, start: i64) -> Seq<Window>
    decreases cursor - start,
{
    if cursor <= start {
        Seq::empty()
    } else {
        let from = if cursor - start <= WINDOW_SECONDS {
            start
        } else {
            (cursor - WINDOW_SECONDS) as i64
        };
        seq![Window { from, to: cursor }] + windows(from, start)
    }
}

/// The lower bound of a walk that ends at `to`: the given one, or one
/// window back when none is given (as far as an `i64` reaches).
pub open spec fn history_start(to: i64, from: Option<i64>) -> i64 {
    match from {
        Some(f) => f,
        None => if to - WINDOW_SECONDS >= i64::MIN {
            (to - WINDOW_SECONDS) as i64
        } else {
            i64::MIN
        },
    }
}

/// Plans the windows of a fetch back from `to` to `from` (one window when
/// no lower bound is given); a lower bound after `to` is refused.
pub fn plan_windows(to: i64, from: Option<i64>) -> (r: Result<Vec<Window>, FetchError>)
    ensures
        match r {
            Ok(ws) => (from matches Some(f) ==> f <= to) && ws@ == windows(to, history_start(to, from)),
            Err(e) => e == FetchError::InvalidRange && (from matches Some(f) && f > to),
        },
{
    let start: i64 = match from {
        Some(f) => {
            if f > to {
                return Err(FetchError::InvalidRange);
            }
            f
        },
        None => {
            if to >= i64::MIN + WINDOW_SECONDS {
                to - WINDOW_SECONDS
            } else {
                i64::MIN
            }
        },
    };
    let mut ws: Vec<Window> = Vec::new();
    let mut cursor: i64 = to;
    while cursor > start
        invariant
            start <= cursor <= to,
            ws@ + windows(cursor, start) == windows(to, start),
        decreases cursor - start,
    {
        let from_here: i64 = if cursor as i128 - start as i128 <= WINDOW_SECONDS as i128 {
            start
        } else {
            cursor - WINDOW_SECONDS
        };
        let w = Window { from: from_here, to: cursor };
        proof {
            assert(windows(cursor, start) == seq![w] + windows(from_here, start));
            assert(ws@.push(w) + windows(from_here, start) =~= ws@ + windows(cursor, start));
        }
        ws.push(w);
        cursor = from_here;
    }
    proof {
        assert(ws@ =~= ws@ + windows(cursor, start));
    }
    Ok(ws)
}

/// The walk back from `cursor` to `start` covers that span without gap or
/// overlap: the windows are contiguous, each is non-empty and at most
/// `WINDOW_SECONDS` long, the first ends at `cursor` and the last begins at
/// `start`.
pub proof fn lemma_windows_cover(cursor: i64, start: i64)
    requires
        start < cursor,
    ensures
        windows(cursor, start).len() > 0,
        windows(cursor, start)[0].to == cursor,
        windows(cursor, start).last().from == start,
        forall|i: int|
            0 <= i < windows(cursor, start).len() ==> #[trigger] windows(cursor, start)[i].from
                < windows(cursor, start)[i].to <= windows(cursor, start)[i].from + WINDOW_SECONDS,
        forall|i: int|
            0 <= i < windows(cursor, start).len() - 1 ==> #[trigger] windows(cursor, start)[i].from
                == windows(cursor, start)[i + 1].to,
    decreases cursor - start,
{
    let ws = windows(cursor, start);
    let w = ws[0];
    let rest = windows(w.from, start);
    assert(ws == seq![w] + rest);
    if w.from > start {
        lemma_windows_cover(w.from, start);
        assert forall|i: int| 0 <= i < ws.len() implies #[trigger] ws[i].from < ws[i].to <= ws[i].from
            + WINDOW_SECONDS by {
            if i > 0 {
                assert(ws[i] == rest[i - 1]);
            }
        }
        assert forall|i: int| 0 <= i < ws.len() - 1 implies #[trigger] ws[i].from == ws[i + 1].to by {
            assert(ws[i + 1] == rest[i]);
            if i > 0 {
                assert(ws[i] == rest[i - 1]);
            }
        }
        assert(ws.last() == rest.last());
    } else {
        assert(rest.len() == 0);
        assert(ws.len() == 1);
    }
}

/// The records of a page that parsed, in page order; a record that failed
/// to parse is left out.
pub open spec fn parsed_records<T>(page: Seq<Option<T>>) -> Seq<T>
    decreases page.len(),
{
    if page.len() == 0 {
        Seq::empty()
    } else {
        let rest = parsed_records(page.drop_last());
        match page.last() {
            Some(x) => rest.push(x),
            None => rest,
        }
    }
}

/// `s` back to front.
pub open spec fn reversed<T>(s: Seq<T>) -> Seq<T> {
    Seq::new(s.len(), |i: int| s[s.len() - 1 - i])
}

/// Keeps the records of a page that parsed, in order, and drops the ones
/// that did not: one malformed record does not spoil its page.
pub fn keep_parsed<T>(page: Vec<Option<T>>) -> (r: Vec<T>)
    ensures
        r@ == parsed_records(page@),
{
    let ghost whole = page@;
    let mut rest = page;
    let mut back: Vec<T> = Vec::new();
    while rest.len() > 0
        invariant
            parsed_records(whole) == parsed_records(rest@) + reversed(back@),
        decreases rest.len(),
    {
        let ghost before = rest@;
        let item = rest.pop();
        proof {
            assert(rest@ == before.drop_last());
        }
        match item {
            Some(Some(x)) => {
                proof {
                    assert(reversed(back@.push(x)) =~= seq![x] + reversed(back@));
                    assert(parsed_records(before) == parsed_records(rest@).push(x));
                    assert(parsed_records(rest@).push(x) + reversed(back@) =~= parsed_records(rest@)
                        + (seq![x] + reversed(back@)));
                }
                back.push(x);
            },
            _ => {},
        }
    }
    let mut out: Vec<T> = Vec::new();
    while back.len() > 0
        invariant
            parsed_records(whole) == out@ + reversed(back@),
        decreases back.len(),
    {
        let ghost before = back@;
        let x = back.pop().unwrap();
        proof {
            assert(back@ == before.drop_last());
            assert(reversed(before) =~= seq![x] + reversed(back@));
            assert(out@.push(x) + reversed(back@) =~= out@ + reversed(before));
        }
        out.push(x);
    }
    proof {
        assert(out@ + reversed(back@) =~= out@);
    }
    out
}

} // verus!
