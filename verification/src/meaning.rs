//! What a lowered pipeline yields when it is consumed, and what the
//! terminal consumers make of it.
//!
//! Expressions and patterns belong to the host language, so their values are
//! left to a `Host`. The sequences here are the items that a consumer has
//! seen so far: an unbounded source is every one of its finite beginnings.

use crate::lower::{fold_quals, lowered, wrap, Pipeline};
use crate::qual::{ComprehensionView, QualView};
use crate::token::Token;
use vstd::prelude::*;

verus! {

/// What the host language makes of expressions and patterns. `V` is the type
/// of its values, `E` that of the names in scope.
#[verifier::reject_recursive_types(V)]
#[verifier::reject_recursive_types(E)]
pub struct Host<V, E> {
    /// The value of an expression in a scope.
    pub eval: spec_fn(Seq<Token>, E) -> V,
    /// The items that a value hands out when it is iterated, in order.
    pub items: spec_fn(V) -> Seq<V>,
    /// The scope after a value has been bound to a pattern.
    pub bind: spec_fn(Seq<Token>, V, E) -> E,
    /// Whether a value is `true`.
    pub holds: spec_fn(V) -> bool,
}

/// All that `inner` yields for each of `items` in turn, bound to `pattern`:
/// everything for one item before anything for the next.
pub open spec fn for_each<V, E>(
    host: Host<V, E>,
    pattern: Seq<Token>,
    inner: Pipeline,
    scope: E,
    items: Seq<V>,
) -> Seq<V>
    decreases inner, 1nat, items.len(),
{
    if items.len() == 0 {
        Seq::empty()
    } else {
        for_each(host, pattern, inner, scope, items.drop_last()) + yields(
            host,
            inner,
            (host.bind)(pattern, items.last(), scope),
        )
    }
}

/// The items that a pipeline yields in a scope, in order.
pub open spec fn yields<V, E>(host: Host<V, E>, pipeline: Pipeline, scope: E) -> Seq<V>
    decreases pipeline, 0nat, 0nat,
{
    match pipeline {
        Pipeline::Once(body) => seq![(host.eval)(body, scope)],
        Pipeline::FlatMap { source, pattern, inner } => for_each(
            host,
            pattern,
            *inner,
            scope,
            (host.items)((host.eval)(source, scope)),
        ),
        Pipeline::Scope { pattern, value, inner } => yields(
            host,
            *inner,
            (host.bind)(pattern, (host.eval)(value, scope), scope),
        ),
        Pipeline::Filter { pred, inner } => if (host.holds)((host.eval)(pred, scope)) {
            yields(host, *inner, scope)
        } else {
            Seq::empty()
        },
    }
}

/// The first qualifier is outermost: folding from the right nests every
/// later qualifier inside the earlier ones.
pub proof fn lemma_first_is_outermost(quals: Seq<QualView>, inner: Pipeline)
    requires
        quals.len() > 0,
    ensures
        fold_quals(quals, inner) == wrap(quals.first(), fold_quals(quals.drop_first(), inner)),
    decreases quals.len(),
{
    reveal_with_fuel(fold_quals, 2);
    if quals.len() == 1 {
        assert(quals.drop_last() =~= quals.drop_first());
    } else {
        let front = quals.drop_last();
        lemma_first_is_outermost(front, wrap(quals.last(), inner));
        assert(front.drop_first() =~= quals.drop_first().drop_last());
        assert(quals.drop_first().last() == quals.last());
        assert(front.first() == quals.first());
    }
}

/// With no qualifier, the body is yielded exactly once.
pub proof fn lemma_no_qualifier<V, E>(host: Host<V, E>, body: Seq<Token>, scope: E)
    ensures
        yields(host, lowered(ComprehensionView { body, quals: Seq::empty() }), scope) == seq![
            (host.eval)(body, scope),
        ],
{
}

/// A comprehension yields what its first qualifier makes of the rest of it.
pub proof fn lemma_first_qualifier<V, E>(host: Host<V, E>, comp: ComprehensionView, scope: E)
    requires
        comp.quals.len() > 0,
    ensures
        yields(host, lowered(comp), scope) == yields(
            host,
            wrap(
                comp.quals.first(),
                lowered(ComprehensionView { body: comp.body, quals: comp.quals.drop_first() }),
            ),
            scope,
        ),
{
    lemma_first_is_outermost(comp.quals, Pipeline::Once(comp.body));
}

/// A guard that holds lets everything after it through, and a guard that
/// does not hold yields nothing.
pub proof fn lemma_guard<V, E>(host: Host<V, E>, pred: Seq<Token>, inner: Pipeline, scope: E)
    ensures
        yields(host, wrap(QualView::Guard(pred), inner), scope) == if (host.holds)(
            (host.eval)(pred, scope),
        ) {
            yields(host, inner, scope)
        } else {
            Seq::empty()
        },
{
}

/// The encoding of a guard: one unit value or none, and for it all of
/// `inner`, is `inner` where the guard holds and nothing where it does not.
pub proof fn lemma_one_or_none<V>(holds: bool, inner: Seq<V>)
    ensures
        seq![()].take(
            if holds {
                1
            } else {
                0
            },
        ).flat_map(|unit: ()| inner) == if holds {
            inner
        } else {
            Seq::empty()
        },
{
    let units = seq![()].take(
        if holds {
            1int
        } else {
            0int
        },
    );
    let each = |unit: ()| inner;
    let parts = units.map_values(each);
    reveal_with_fuel(Seq::flatten, 2);
    if holds {
        assert(parts.first() == inner);
        assert(parts.drop_first() =~= Seq::<Seq<V>>::empty());
        assert(parts.flatten() =~= inner);
    } else {
        assert(parts =~= Seq::<Seq<V>>::empty());
    }
}

/// A local binding yields what follows it, in the scope that it extends.
pub proof fn lemma_local_binding<V, E>(
    host: Host<V, E>,
    pattern: Seq<Token>,
    value: Seq<Token>,
    inner: Pipeline,
    scope: E,
)
    ensures
        yields(host, wrap(QualView::LocalDecl(pattern, value), inner), scope) == yields(
            host,
            inner,
            (host.bind)(pattern, (host.eval)(value, scope), scope),
        ),
{
}

/// A generator yields, for the items of its source in order, what follows it.
pub proof fn lemma_generator<V, E>(
    host: Host<V, E>,
    pattern: Seq<Token>,
    source: Seq<Token>,
    inner: Pipeline,
    scope: E,
)
    ensures
        yields(host, wrap(QualView::Generator(pattern, source), inner), scope) == for_each(
            host,
            pattern,
            inner,
            scope,
            (host.items)((host.eval)(source, scope)),
        ),
{
}

/// Source order is kept: what is yielded for the items of `first` comes
/// before anything that is yielded for the items of `second`.
pub proof fn lemma_source_order<V, E>(
    host: Host<V, E>,
    pattern: Seq<Token>,
    inner: Pipeline,
    scope: E,
    first: Seq<V>,
    second: Seq<V>,
)
    ensures
        for_each(host, pattern, inner, scope, first + second) == for_each(
            host,
            pattern,
            inner,
            scope,
            first,
        ) + for_each(host, pattern, inner, scope, second),
    decreases second.len(),
{
    if second.len() == 0 {
        assert(first + second =~= first);
        assert(for_each(host, pattern, inner, scope, second) =~= Seq::<V>::empty());
    } else {
        let whole = first + second;
        assert(whole.drop_last() =~= first + second.drop_last());
        assert(whole.last() == second.last());
        lemma_source_order(host, pattern, inner, scope, first, second.drop_last());
        let tail = yields(host, inner, (host.bind)(pattern, second.last(), scope));
        assert(for_each(host, pattern, inner, scope, whole) =~= for_each(
            host,
            pattern,
            inner,
            scope,
            first,
        ) + (for_each(host, pattern, inner, scope, second.drop_last()) + tail));
    }
}

/// Laziness in the outermost source: what the first `count` items of the
/// source yield is the beginning of what any longer run of the source
/// yields. A consumer that has found the items it asked for among them
/// never needs the source to go on, let alone to end.
pub proof fn lemma_prefix_of_source<V, E>(
    host: Host<V, E>,
    pattern: Seq<Token>,
    inner: Pipeline,
    scope: E,
    items: Seq<V>,
    count: int,
)
    requires
        0 <= count <= items.len(),
    ensures
        for_each(host, pattern, inner, scope, items.take(count)).is_prefix_of(
            for_each(host, pattern, inner, scope, items),
        ),
{
    assert(items =~= items.take(count) + items.skip(count));
    lemma_source_order(host, pattern, inner, scope, items.take(count), items.skip(count));
}

/// Laziness of a comprehension whose first qualifier is a generator: what
/// the first `count` items of its source yield is the beginning of all that
/// the comprehension yields. Taking that many items stops there, whether or
/// not the source ever ends.
pub proof fn lemma_outermost_generator_is_lazy<V, E>(
    host: Host<V, E>,
    comp: ComprehensionView,
    scope: E,
    count: int,
)
    requires
        comp.quals.len() > 0,
        comp.quals.first() is Generator,
        0 <= count <= (host.items)((host.eval)(comp.quals.first()->Generator_1, scope)).len(),
    ensures
        for_each(
            host,
            comp.quals.first()->Generator_0,
            lowered(ComprehensionView { body: comp.body, quals: comp.quals.drop_first() }),
            scope,
            (host.items)((host.eval)(comp.quals.first()->Generator_1, scope)).take(count),
        ).is_prefix_of(yields(host, lowered(comp), scope)),
{
    let pattern = comp.quals.first()->Generator_0;
    let source = comp.quals.first()->Generator_1;
    let rest = lowered(ComprehensionView { body: comp.body, quals: comp.quals.drop_first() });
    lemma_first_qualifier(host, comp, scope);
    lemma_prefix_of_source(
        host,
        pattern,
        rest,
        scope,
        (host.items)((host.eval)(source, scope)),
        count,
    );
}

/// The number of items that a generator yields when what follows it yields
/// `width` items for every item of the source.
pub proof fn lemma_block_count<V, E>(
    host: Host<V, E>,
    pattern: Seq<Token>,
    inner: Pipeline,
    scope: E,
    items: Seq<V>,
    width: nat,
)
    requires
        forall|k: int|
            0 <= k < items.len() ==> (#[trigger] yields(
                host,
                inner,
                (host.bind)(pattern, items[k], scope),
            )).len() == width,
    ensures
        for_each(host, pattern, inner, scope, items).len() == items.len() * width,
    decreases items.len(),
{
    if items.len() > 0 {
        let front = items.drop_last();
        assert forall|k: int| 0 <= k < front.len() implies (#[trigger] yields(
            host,
            inner,
            (host.bind)(pattern, front[k], scope),
        )).len() == width by {
            assert(front[k] == items[k]);
        }
        lemma_block_count(host, pattern, inner, scope, front, width);
        let tail = yields(host, inner, (host.bind)(pattern, items[items.len() - 1], scope));
        assert(tail.len() == width);
        assert(for_each(host, pattern, inner, scope, items) == for_each(
            host,
            pattern,
            inner,
            scope,
            front,
        ) + tail);
        assert((items.len() - 1) * width + width == items.len() * width) by (nonlinear_arith);
    } else {
        assert(items.len() * width == 0) by (nonlinear_arith)
            requires
                items.len() == 0,
        ;
    }
}

/// The outer variable varies slowest: where what follows a generator yields
/// `width` items for every item of the source, the item at place
/// `row * width + column` of the whole is the item at place `column` of what
/// is yielded for the source's item at place `row`.
pub proof fn lemma_outer_varies_slowest<V, E>(
    host: Host<V, E>,
    pattern: Seq<Token>,
    inner: Pipeline,
    scope: E,
    items: Seq<V>,
    width: nat,
    row: int,
    column: int,
)
    requires
        forall|k: int|
            0 <= k < items.len() ==> (#[trigger] yields(
                host,
                inner,
                (host.bind)(pattern, items[k], scope),
            )).len() == width,
        0 <= row < items.len(),
        0 <= column < width,
    ensures
        0 <= row * width + column < for_each(host, pattern, inner, scope, items).len(),
        for_each(host, pattern, inner, scope, items)[row * width + column] == yields(
            host,
            inner,
            (host.bind)(pattern, items[row], scope),
        )[column],
    decreases items.len(),
{
    let front = items.drop_last();
    assert forall|k: int| 0 <= k < front.len() implies (#[trigger] yields(
        host,
        inner,
        (host.bind)(pattern, front[k], scope),
    )).len() == width by {
        assert(front[k] == items[k]);
    }
    lemma_block_count(host, pattern, inner, scope, front, width);
    lemma_block_count(host, pattern, inner, scope, items, width);
    let before = for_each(host, pattern, inner, scope, front);
    let place = row * width + column;
    assert(items.last() == items[items.len() - 1]);
    if row < front.len() {
        lemma_outer_varies_slowest(host, pattern, inner, scope, front, width, row, column);
        assert(front[row] == items[row]);
        assert(0 <= place < before.len());
    } else {
        assert(row == front.len());
        assert(place == before.len() + column);
        assert(before.len() + width == items.len() * width) by (nonlinear_arith)
            requires
                before.len() == front.len() * width,
                front.len() + 1 == items.len(),
        ;
    }
}

/// A guard after a generator filters: the items of the source that pass the
/// guard are mapped to the body in source order, and the others leave no
/// gap.
pub proof fn lemma_guard_filters<V, E>(
    host: Host<V, E>,
    pattern: Seq<Token>,
    pred: Seq<Token>,
    body: Seq<Token>,
    scope: E,
    items: Seq<V>,
)
    ensures
        for_each(
            host,
            pattern,
            wrap(QualView::Guard(pred), Pipeline::Once(body)),
            scope,
            items,
        ) == items.filter(
            |item: V| (host.holds)((host.eval)(pred, (host.bind)(pattern, item, scope))),
        ).map_values(|item: V| (host.eval)(body, (host.bind)(pattern, item, scope))),
    decreases items.len(),
{
    let inner = wrap(QualView::Guard(pred), Pipeline::Once(body));
    let passes = |item: V| (host.holds)((host.eval)(pred, (host.bind)(pattern, item, scope)));
    let value = |item: V| (host.eval)(body, (host.bind)(pattern, item, scope));
    reveal_with_fuel(Seq::filter, 2);
    if items.len() == 0 {
        assert(items.filter(passes).map_values(value) =~= Seq::<V>::empty());
    } else {
        let front = items.drop_last();
        lemma_guard_filters(host, pattern, pred, body, scope, front);
        let kept = front.filter(passes);
        let bound = (host.bind)(pattern, items.last(), scope);
        let tail = yields(host, inner, bound);
        lemma_guard(host, pred, Pipeline::Once(body), bound);
        assert(yields(host, Pipeline::Once(body), bound) == seq![value(items.last())]);
        assert(for_each(host, pattern, inner, scope, items) == for_each(
            host,
            pattern,
            inner,
            scope,
            front,
        ) + tail);
        if passes(items.last()) {
            assert(items.filter(passes) == kept.push(items.last()));
            assert(kept.push(items.last()).map_values(value) =~= kept.map_values(value).push(
                value(items.last()),
            ));
            assert(kept.map_values(value) + tail =~= kept.map_values(value).push(
                value(items.last()),
            ));
        } else {
            assert(items.filter(passes) == kept);
            assert(kept.map_values(value) + tail =~= kept.map_values(value));
        }
    }
}

/// Consuming a pipeline changes nothing: two pipelines lowered from the same
/// comprehension yield the same items in the same scope, however often.
pub proof fn lemma_same_input_same_items<V, E>(
    host: Host<V, E>,
    first: ComprehensionView,
    second: ComprehensionView,
    scope: E,
)
    requires
        first.body == second.body,
        first.quals == second.quals,
    ensures
        lowered(first) == lowered(second),
        yields(host, lowered(first), scope) == yields(host, lowered(second), scope),
{
}

/// Folding two lists of qualifiers in a row: the second list is folded
/// first, and the first list around it.
pub proof fn lemma_fold_of_lists(first: Seq<QualView>, second: Seq<QualView>, inner: Pipeline)
    ensures
        fold_quals(first + second, inner) == fold_quals(first, fold_quals(second, inner)),
    decreases second.len(),
{
    if second.len() == 0 {
        assert(first + second =~= first);
    } else {
        let whole = first + second;
        assert(whole.drop_last() =~= first + second.drop_last());
        assert(whole.last() == second.last());
        lemma_fold_of_lists(first, second.drop_last(), wrap(second.last(), inner));
    }
}

/// Whether two pipelines yield the same items in every scope.
pub open spec fn same_items<V, E>(host: Host<V, E>, first: Pipeline, second: Pipeline) -> bool {
    forall|scope: E| #[trigger] yields(host, first, scope) == yields(host, second, scope)
}

/// Whether a pipeline yields nothing in any scope.
pub open spec fn yields_nothing<V, E>(host: Host<V, E>, pipeline: Pipeline) -> bool {
    forall|scope: E| (#[trigger] yields(host, pipeline, scope)).len() == 0
}

/// A generator yields the same for two pipelines inside it that yield the
/// same.
pub proof fn lemma_for_each_same<V, E>(
    host: Host<V, E>,
    pattern: Seq<Token>,
    first: Pipeline,
    second: Pipeline,
    scope: E,
    items: Seq<V>,
)
    requires
        same_items(host, first, second),
    ensures
        for_each(host, pattern, first, scope, items) == for_each(
            host,
            pattern,
            second,
            scope,
            items,
        ),
    decreases items.len(),
{
    if items.len() > 0 {
        lemma_for_each_same(host, pattern, first, second, scope, items.drop_last());
        let bound = (host.bind)(pattern, items.last(), scope);
        assert(yields(host, first, bound) == yields(host, second, bound));
    }
}

/// A generator yields nothing where what is inside it yields nothing.
pub proof fn lemma_for_each_nothing<V, E>(
    host: Host<V, E>,
    pattern: Seq<Token>,
    inner: Pipeline,
    scope: E,
    items: Seq<V>,
)
    requires
        yields_nothing(host, inner),
    ensures
        for_each(host, pattern, inner, scope, items).len() == 0,
    decreases items.len(),
{
    if items.len() > 0 {
        lemma_for_each_nothing(host, pattern, inner, scope, items.drop_last());
        let bound = (host.bind)(pattern, items.last(), scope);
        assert(yields(host, inner, bound).len() == 0);
    }
}

/// Pipelines that yield the same still do so inside the same qualifiers.
pub proof fn lemma_same_inside<V, E>(
    host: Host<V, E>,
    quals: Seq<QualView>,
    first: Pipeline,
    second: Pipeline,
)
    requires
        same_items(host, first, second),
    ensures
        same_items(host, fold_quals(quals, first), fold_quals(quals, second)),
    decreases quals.len(),
{
    if quals.len() > 0 {
        let outer = quals.last();
        assert forall|scope: E| #[trigger]
            yields(host, wrap(outer, first), scope) == yields(
                host,
                wrap(outer, second),
                scope,
            ) by {
            match outer {
                QualView::Generator(pattern, source) => {
                    lemma_for_each_same(
                        host,
                        pattern,
                        first,
                        second,
                        scope,
                        (host.items)((host.eval)(source, scope)),
                    );
                },
                QualView::LocalDecl(pattern, value) => {
                    let bound = (host.bind)(pattern, (host.eval)(value, scope), scope);
                    assert(yields(host, first, bound) == yields(host, second, bound));
                },
                QualView::Guard(pred) => {
                    assert(yields(host, first, scope) == yields(host, second, scope));
                },
            }
        }
        lemma_same_inside(host, quals.drop_last(), wrap(outer, first), wrap(outer, second));
    }
}

/// A pipeline that yields nothing still yields nothing inside any
/// qualifiers.
pub proof fn lemma_nothing_inside<V, E>(host: Host<V, E>, quals: Seq<QualView>, inner: Pipeline)
    requires
        yields_nothing(host, inner),
    ensures
        yields_nothing(host, fold_quals(quals, inner)),
    decreases quals.len(),
{
    if quals.len() > 0 {
        let outer = quals.last();
        assert forall|scope: E| (#[trigger] yields(host, wrap(outer, inner), scope)).len()
            == 0 by {
            match outer {
                QualView::Generator(pattern, source) => {
                    lemma_for_each_nothing(
                        host,
                        pattern,
                        inner,
                        scope,
                        (host.items)((host.eval)(source, scope)),
                    );
                },
                QualView::LocalDecl(pattern, value) => {
                    let bound = (host.bind)(pattern, (host.eval)(value, scope), scope);
                    assert(yields(host, inner, bound).len() == 0);
                },
                QualView::Guard(pred) => {
                    assert(yields(host, inner, scope).len() == 0);
                },
            }
        }
        lemma_nothing_inside(host, quals.drop_last(), wrap(outer, inner));
    }
}

/// A guard that holds in every scope can be left out, wherever in the list
/// it stands.
pub proof fn lemma_guard_that_always_holds<V, E>(
    host: Host<V, E>,
    before: Seq<QualView>,
    pred: Seq<Token>,
    after: Seq<QualView>,
    inner: Pipeline,
)
    requires
        forall|scope: E| (host.holds)(#[trigger] (host.eval)(pred, scope)),
    ensures
        same_items(
            host,
            fold_quals(before + seq![QualView::Guard(pred)] + after, inner),
            fold_quals(before + after, inner),
        ),
{
    let guard = QualView::Guard(pred);
    let rest = fold_quals(after, inner);
    lemma_fold_of_lists(before + seq![guard], after, inner);
    lemma_fold_of_lists(before, seq![guard], rest);
    lemma_fold_of_lists(before, after, inner);
    reveal_with_fuel(fold_quals, 2);
    assert(seq![guard].drop_last() =~= Seq::<QualView>::empty());
    assert(fold_quals(seq![guard], rest) == wrap(guard, rest));
    assert forall|scope: E| #[trigger]
        yields(host, wrap(guard, rest), scope) == yields(host, rest, scope) by {
        assert((host.holds)((host.eval)(pred, scope)));
    }
    lemma_same_inside(host, before, wrap(guard, rest), rest);
}

/// A guard that holds in no scope leaves nothing, wherever in the list it
/// stands.
pub proof fn lemma_guard_that_never_holds<V, E>(
    host: Host<V, E>,
    before: Seq<QualView>,
    pred: Seq<Token>,
    after: Seq<QualView>,
    inner: Pipeline,
)
    requires
        forall|scope: E| !(host.holds)(#[trigger] (host.eval)(pred, scope)),
    ensures
        yields_nothing(host, fold_quals(before + seq![QualView::Guard(pred)] + after, inner)),
{
    let guard = QualView::Guard(pred);
    let rest = fold_quals(after, inner);
    lemma_fold_of_lists(before + seq![guard], after, inner);
    lemma_fold_of_lists(before, seq![guard], rest);
    reveal_with_fuel(fold_quals, 2);
    assert(seq![guard].drop_last() =~= Seq::<QualView>::empty());
    assert(fold_quals(seq![guard], rest) == wrap(guard, rest));
    assert forall|scope: E| (#[trigger] yields(host, wrap(guard, rest), scope)).len() == 0 by {
        assert(!(host.holds)((host.eval)(pred, scope)));
    }
    lemma_nothing_inside(host, before, wrap(guard, rest));
}

/// A local binding is a generator over a source of one item, the value.
pub proof fn lemma_binding_is_generator_of_one<V, E>(
    host: Host<V, E>,
    pattern: Seq<Token>,
    value: Seq<Token>,
    inner: Pipeline,
    scope: E,
)
    ensures
        yields(host, wrap(QualView::LocalDecl(pattern, value), inner), scope) == for_each(
            host,
            pattern,
            inner,
            scope,
            seq![(host.eval)(value, scope)],
        ),
{
    let one = seq![(host.eval)(value, scope)];
    reveal_with_fuel(for_each, 2);
    assert(one.drop_last() =~= Seq::<V>::empty());
    assert(one.last() == (host.eval)(value, scope));
    let bound = (host.bind)(pattern, (host.eval)(value, scope), scope);
    assert(for_each(host, pattern, inner, scope, one) =~= yields(host, inner, bound));
}

/// A local binding can be written as a generator whose source hands out the
/// value and nothing else, wherever in the list it stands.
pub proof fn lemma_binding_as_generator<V, E>(
    host: Host<V, E>,
    before: Seq<QualView>,
    pattern: Seq<Token>,
    value: Seq<Token>,
    source: Seq<Token>,
    after: Seq<QualView>,
    inner: Pipeline,
)
    requires
        forall|scope: E|
            (host.items)(#[trigger] (host.eval)(source, scope)) == seq![
                (host.eval)(value, scope),
            ],
    ensures
        same_items(
            host,
            fold_quals(before + seq![QualView::LocalDecl(pattern, value)] + after, inner),
            fold_quals(before + seq![QualView::Generator(pattern, source)] + after, inner),
        ),
{
    let binding = QualView::LocalDecl(pattern, value);
    let generator = QualView::Generator(pattern, source);
    let rest = fold_quals(after, inner);
    lemma_fold_of_lists(before + seq![binding], after, inner);
    lemma_fold_of_lists(before, seq![binding], rest);
    lemma_fold_of_lists(before + seq![generator], after, inner);
    lemma_fold_of_lists(before, seq![generator], rest);
    reveal_with_fuel(fold_quals, 2);
    assert(seq![binding].drop_last() =~= Seq::<QualView>::empty());
    assert(seq![generator].drop_last() =~= Seq::<QualView>::empty());
    assert(fold_quals(seq![binding], rest) == wrap(binding, rest));
    assert(fold_quals(seq![generator], rest) == wrap(generator, rest));
    assert forall|scope: E| #[trigger]
        yields(host, wrap(binding, rest), scope) == yields(
            host,
            wrap(generator, rest),
            scope,
        ) by {
        lemma_binding_is_generator_of_one(host, pattern, value, rest, scope);
        assert((host.items)((host.eval)(source, scope)) == seq![(host.eval)(value, scope)]);
    }
    lemma_same_inside(host, before, wrap(binding, rest), wrap(generator, rest));
}

/// What collecting gathers from a pipeline: all that it yields, in order.
pub open spec fn collected<V, E>(host: Host<V, E>, pipeline: Pipeline, scope: E) -> Seq<V> {
    yields(host, pipeline, scope)
}

/// The items folded from the left, beginning with `identity`:
/// `combine(.. combine(combine(identity, first), second) .., last)`.
pub open spec fn folded<V>(items: Seq<V>, identity: V, combine: spec_fn(V, V) -> V) -> V {
    items.fold_left(identity, combine)
}

/// What reducing makes of a pipeline: its items folded with the identity and
/// the combining operator of their type, which for a sum are zero and
/// addition and for a product one and multiplication.
pub open spec fn reduced<V, E>(
    host: Host<V, E>,
    pipeline: Pipeline,
    scope: E,
    identity: V,
    combine: spec_fn(V, V) -> V,
) -> V {
    folded(yields(host, pipeline, scope), identity, combine)
}

/// A pipeline that yields nothing reduces to the identity.
pub proof fn lemma_nothing_reduces_to_identity<V, E>(
    host: Host<V, E>,
    pipeline: Pipeline,
    scope: E,
    identity: V,
    combine: spec_fn(V, V) -> V,
)
    requires
        yields(host, pipeline, scope).len() == 0,
    ensures
        reduced(host, pipeline, scope, identity, combine) == identity,
{
}

/// A body alone reduces to the identity combined with its value.
pub proof fn lemma_body_alone_reduces<V, E>(
    host: Host<V, E>,
    body: Seq<Token>,
    scope: E,
    identity: V,
    combine: spec_fn(V, V) -> V,
)
    ensures
        reduced(
            host,
            lowered(ComprehensionView { body, quals: Seq::empty() }),
            scope,
            identity,
            combine,
        ) == combine(identity, (host.eval)(body, scope)),
{
    let items = seq![(host.eval)(body, scope)];
    reveal_with_fuel(Seq::fold_left, 2);
    assert(items.drop_last() =~= Seq::<V>::empty());
    assert(items.last() == (host.eval)(body, scope));
}

/// Folding items that come in two runs goes on, for the second run, from
/// what the first run folded to.
pub proof fn lemma_fold_goes_on<V>(
    first: Seq<V>,
    second: Seq<V>,
    identity: V,
    combine: spec_fn(V, V) -> V,
)
    ensures
        folded(first + second, identity, combine) == folded(
            second,
            folded(first, identity, combine),
            combine,
        ),
{
    let whole = first + second;
    whole.lemma_fold_left_split(identity, combine, first.len() as int);
    assert(whole.subrange(0, first.len() as int) =~= first);
    assert(whole.subrange(first.len() as int, whole.len() as int) =~= second);
}

/// Where the operator is associative and `identity` is neutral on both
/// sides, as zero is for addition and one for multiplication, items that
/// come in two runs fold to what the runs fold to, combined.
pub proof fn lemma_fold_of_runs<V>(
    first: Seq<V>,
    second: Seq<V>,
    identity: V,
    combine: spec_fn(V, V) -> V,
)
    requires
        forall|a: V, b: V, c: V| #[trigger]
            combine(combine(a, b), c) == combine(a, combine(b, c)),
        forall|a: V| #[trigger] combine(identity, a) == a,
        forall|a: V| #[trigger] combine(a, identity) == a,
    ensures
        folded(first + second, identity, combine) == combine(
            folded(first, identity, combine),
            folded(second, identity, combine),
        ),
    decreases second.len(),
{
    let left = folded(first, identity, combine);
    if second.len() == 0 {
        assert(first + second =~= first);
        assert(folded(second, identity, combine) == identity);
        assert(combine(left, identity) == left);
    } else {
        let whole = first + second;
        let front = second.drop_last();
        assert(whole.drop_last() =~= first + front);
        assert(whole.last() == second.last());
        lemma_fold_of_runs(first, front, identity, combine);
        let right = folded(front, identity, combine);
        assert(folded(whole, identity, combine) == combine(
            folded(first + front, identity, combine),
            second.last(),
        ));
        assert(folded(second, identity, combine) == combine(right, second.last()));
        assert(combine(combine(left, right), second.last()) == combine(
            left,
            combine(right, second.last()),
        ));
    }
}

/// Reducing a generator whose source comes in two runs: the items that the
/// second run yields are folded onto what the first run reduced to.
pub proof fn lemma_reduce_goes_on<V, E>(
    host: Host<V, E>,
    pattern: Seq<Token>,
    inner: Pipeline,
    scope: E,
    first: Seq<V>,
    second: Seq<V>,
    identity: V,
    combine: spec_fn(V, V) -> V,
)
    ensures
        folded(for_each(host, pattern, inner, scope, first + second), identity, combine)
            == folded(
            for_each(host, pattern, inner, scope, second),
            folded(for_each(host, pattern, inner, scope, first), identity, combine),
            combine,
        ),
{
    lemma_source_order(host, pattern, inner, scope, first, second);
    lemma_fold_goes_on(
        for_each(host, pattern, inner, scope, first),
        for_each(host, pattern, inner, scope, second),
        identity,
        combine,
    );
}

} // verus!
