//! Which positions a cycle leaves, and of which bucket each is.

use super::cycles::{is_made, tried_sale};
use crate::account::{Account, Position};
use crate::book::Book;
use crate::dates::resolution_second;
use crate::engine::{Admission, EngineConfig, lemma_even_cost};
use crate::event::{BucketInfo, WeatherEvent, big_endian};
use crate::text::decimal;
use vstd::prelude::*;

verus! {

/// How many shares of a bucket are sold.
pub open spec fn shares_sold_of(config: EngineConfig, book: Option<Book>, n_buckets: int) -> int {
    match book {
        Some(b) => {
            let sale = tried_sale(config, b, n_buckets);
            if is_made(config, sale, n_buckets) {
                sale.shares_filled as int
            } else {
                0
            }
        },
        None => 0,
    }
}

/// Whether a position is recorded for a bucket: nothing of it was sold, or not all.
pub open spec fn leaves_position(config: EngineConfig, book: Option<Book>, n_buckets: int) -> bool {
    let sold = shares_sold_of(config, book, n_buckets);
    sold == 0 || sold < config.mint_amount_usdc
}

/// Whether a position is one in the given bucket of the event: it has the label of the
/// bucket and the decimal identifier of its YES token, and slug, city, date and times
/// of the event.
pub open spec fn is_of_bucket(
    p: Position,
    event: WeatherEvent,
    bucket: BucketInfo,
    now_unix: i64,
) -> bool {
    &&& p.bucket_label == bucket.bucket_label@
    &&& p.token_id == decimal(big_endian(bucket.token_id_yes@))
    &&& p.event_slug == event.event_slug@
    &&& p.city == event.city@
    &&& p.resolution_date == event.resolution_date@
    &&& p.minted_at == now_unix
    &&& p.resolves_at == resolution_second(event.resolution_date@, now_unix) as i64
}

/// A bucket adds one position where shares of it are left, and none where all are
/// sold. The position is of that bucket, holds what is left, and costs nothing where
/// some was sold and its part of the mint where none was.
pub proof fn law_bucket_adds_its_own_position(
    config: EngineConfig,
    event: WeatherEvent,
    books: Seq<Option<Book>>,
    now_unix: i64,
    i: int,
)
    requires
        0 <= i < event.buckets@.len(),
        config.mint_amount_usdc >= 0,
    ensures
        ({
            let n = event.buckets@.len() as int;
            let before = config.tally(event, books, now_unix, i).legs;
            let after = config.tally(event, books, now_unix, i + 1).legs;
            let sold = shares_sold_of(config, books[i], n);
            if leaves_position(config, books[i], n) {
                &&& after.len() == before.len() + 1
                &&& after.drop_last() == before
                &&& is_of_bucket(after.last(), event, event.buckets@[i], now_unix)
                &&& after.last().shares_held == config.mint_amount_usdc - sold
                &&& sold > 0 ==> after.last().effective_cost_per_share == 0
                &&& sold == 0 ==> after.last().effective_cost_per_share * n >= 1_000_000_000
                    && (after.last().effective_cost_per_share - 1) * n < 1_000_000_000
            } else {
                after == before
            }
        }),
{
    let n = event.buckets@.len() as int;
    let before = config.tally(event, books, now_unix, i).legs;
    let after = config.tally(event, books, now_unix, i + 1).legs;
    lemma_even_cost(n);
    let c = config.mint_cost(n) as int;
    assert((c - 1) * n == c * n - n) by (nonlinear_arith);
    assert(leaves_position(config, books[i], n) ==> after.drop_last() =~= before);
}

/// Every position that the first `i` buckets leave is of one of them.
pub proof fn law_positions_are_of_their_buckets(
    config: EngineConfig,
    event: WeatherEvent,
    books: Seq<Option<Book>>,
    now_unix: i64,
    i: int,
)
    requires
        0 <= i <= event.buckets@.len(),
        config.mint_amount_usdc >= 0,
    ensures
        forall|k: int|
            0 <= k < config.tally(event, books, now_unix, i).legs.len() ==> exists|j: int|
                0 <= j < i && is_of_bucket(
                    #[trigger] config.tally(event, books, now_unix, i).legs[k],
                    event,
                    #[trigger] event.buckets@[j],
                    now_unix,
                ),
        forall|j: int|
            0 <= j < i && leaves_position(
                config,
                #[trigger] books[j],
                event.buckets@.len() as int,
            ) ==> exists|k: int|
                0 <= k < config.tally(event, books, now_unix, i).legs.len() && is_of_bucket(
                    #[trigger] config.tally(event, books, now_unix, i).legs[k],
                    event,
                    event.buckets@[j],
                    now_unix,
                ) && config.tally(event, books, now_unix, i).legs[k].shares_held
                    == config.mint_amount_usdc - shares_sold_of(
                    config,
                    books[j],
                    event.buckets@.len() as int,
                ),
    decreases i,
{
    if i > 0 {
        let n = event.buckets@.len() as int;
        law_positions_are_of_their_buckets(config, event, books, now_unix, i - 1);
        law_bucket_adds_its_own_position(config, event, books, now_unix, i - 1);
        let before = config.tally(event, books, now_unix, i - 1).legs;
        let after = config.tally(event, books, now_unix, i).legs;
        assert forall|k: int| 0 <= k < before.len() implies after[k] == before[k] by {
            if leaves_position(config, books[i - 1], n) {
                assert(after.drop_last()[k] == before[k]);
            }
        }
        assert forall|k: int| 0 <= k < after.len() implies exists|j: int|
            0 <= j < i && is_of_bucket(
                #[trigger] after[k],
                event,
                #[trigger] event.buckets@[j],
                now_unix,
            ) by {
            if k < before.len() {
                let j = choose|j: int|
                    0 <= j < i - 1 && is_of_bucket(
                        before[k],
                        event,
                        #[trigger] event.buckets@[j],
                        now_unix,
                    );
                assert(is_of_bucket(after[k], event, event.buckets@[j], now_unix));
            } else {
                assert(is_of_bucket(after[k], event, event.buckets@[i - 1], now_unix));
            }
        }
        assert forall|j: int| 0 <= j < i && leaves_position(config, #[trigger] books[j], n) implies
            exists|k: int|
            0 <= k < after.len() && is_of_bucket(
                #[trigger] after[k],
                event,
                event.buckets@[j],
                now_unix,
            ) && after[k].shares_held == config.mint_amount_usdc - shares_sold_of(
                config,
                books[j],
                n,
            ) by {
            if j < i - 1 {
                let k = choose|k: int|
                    0 <= k < before.len() && is_of_bucket(
                        #[trigger] before[k],
                        event,
                        event.buckets@[j],
                        now_unix,
                    ) && before[k].shares_held == config.mint_amount_usdc - shares_sold_of(
                        config,
                        books[j],
                        n,
                    );
                assert(is_of_bucket(after[k], event, event.buckets@[j], now_unix));
            } else {
                let k = after.len() - 1;
                assert(after.last() == after[k]);
                assert(is_of_bucket(after[k], event, event.buckets@[j], now_unix));
            }
        }
    }
}

/// The shares that are held under a label.
pub open spec fn shares_under(ps: Seq<Position>, label: Seq<char>) -> int
    decreases ps.len(),
{
    if ps.len() == 0 {
        0
    } else {
        shares_under(ps.drop_last(), label) + (if ps.last().bucket_label == label {
            ps.last().shares_held as int
        } else {
            0
        })
    }
}

/// Whether no two buckets have one label.
pub open spec fn distinct_labels(event: WeatherEvent) -> bool {
    forall|i: int, j: int|
        0 <= i < j < event.buckets@.len() ==> (#[trigger] event.buckets@[i]).bucket_label@ != (
        #[trigger] event.buckets@[j]).bucket_label@
}

/// Label by label no share is lost: what is sold of a bucket and what is held under
/// its label are together what was minted of it.
pub proof fn law_shares_are_conserved_by_label(
    config: EngineConfig,
    event: WeatherEvent,
    books: Seq<Option<Book>>,
    now_unix: i64,
    j: int,
    i: int,
)
    requires
        0 <= j < event.buckets@.len(),
        0 <= i <= event.buckets@.len(),
        distinct_labels(event),
        config.mint_amount_usdc >= 0,
        shares_sold_of(config, books[j], event.buckets@.len() as int) <= config.mint_amount_usdc,
    ensures
        j < i ==> shares_under(
            config.tally(event, books, now_unix, i).legs,
            event.buckets@[j].bucket_label@,
        ) + shares_sold_of(config, books[j], event.buckets@.len() as int)
            == config.mint_amount_usdc,
        j >= i ==> shares_under(
            config.tally(event, books, now_unix, i).legs,
            event.buckets@[j].bucket_label@,
        ) == 0,
    decreases i,
{
    if i > 0 {
        let n = event.buckets@.len() as int;
        law_shares_are_conserved_by_label(config, event, books, now_unix, j, i - 1);
        law_bucket_adds_its_own_position(config, event, books, now_unix, i - 1);
        let label = event.buckets@[j].bucket_label@;
        let other = event.buckets@[i - 1].bucket_label@;
        if j < i - 1 {
            assert(label != other);
        } else if j > i - 1 {
            assert(other != label);
        }
    }
}

/// A cycle that is taken on adds the positions of its buckets behind those that are
/// open, and one that is not adds none.
pub proof fn law_cycle_adds_its_positions(
    config: EngineConfig,
    account: Account,
    event: WeatherEvent,
    books: Seq<Option<Book>>,
    now_unix: i64,
)
    ensures
        ({
            let n = event.buckets@.len() as int;
            let after = config.cycled(account, event, now_unix, books);
            if account.bankroll_usdc >= config.need() && account.open_event_slugs.len()
                < config.max_concurrent_events {
                after.open_positions == account.open_positions + config.tally(
                    event,
                    books,
                    now_unix,
                    n,
                ).legs
            } else {
                after == account
            }
        }),
{
}

/// An event is taken on exactly where the bankroll covers twice the mint amount and
/// the gas of a split and a conversion, and fewer events are open than may be. A
/// bankroll that is too small is told before a cap that is reached.
pub proof fn law_admission(config: EngineConfig, account: Account)
    requires
        config.mint_amount_usdc <= 0x3fff_ffff_0000_0000,
        config.mint_amount_usdc >= -0x3fff_ffff_0000_0000,
    ensures
        ({
            let covered = account.bankroll_usdc >= 2 * config.mint_amount_usdc + 8_000_000
                + 12_000_000;
            let room = account.open_event_slugs.len() < config.max_concurrent_events;
            &&& config.admission(account) == Admission::Mint <==> covered && room
            &&& config.admission(account) == Admission::SkipBankroll <==> !covered
            &&& config.admission(account) == Admission::SkipConcurrentCap <==> covered && !room
        }),
{
}

/// What is offered of each bucket is the fraction of what was minted of it, and the
/// price floor is the higher one of the configured one and the cost.
pub proof fn law_offer_and_floor(config: EngineConfig, n_buckets: int)
    ensures
        i64::MIN < config.target_dump() < i64::MAX && config.mint_amount_usdc >= 0
            && config.dump_fraction >= 0 ==> 0 <= config.mint_amount_usdc * config.dump_fraction
            - config.target_dump() * 1_000_000_000 < 1_000_000_000,
        config.price_floor(n_buckets) >= config.min_dump_price,
        config.price_floor(n_buckets) >= config.mint_cost(n_buckets),
        config.price_floor(n_buckets) == config.min_dump_price || config.price_floor(n_buckets)
            == config.mint_cost(n_buckets),
{
    super::amounts::law_products_cut_off(config.mint_amount_usdc, config.dump_fraction);
    if config.mint_amount_usdc >= 0 && config.dump_fraction >= 0 {
        let a = config.mint_amount_usdc as int;
        let b = config.dump_fraction as int;
        assert(a * b >= 0) by (nonlinear_arith)
            requires
                a >= 0,
                b >= 0,
        ;
    }
}

} // verus!
