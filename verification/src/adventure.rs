//! The crafting-dependency solver: parses item-dependency text of the shape
//! `NAME SUB. THING missing THING and THING ...` into item trees, computes
//! which items must be combined (and which taken or destroyed) to produce a
//! wanted item, and emits the command list. Text is handled as sequences of
//! characters; the host turns lines into character vectors and back.

use vstd::prelude::*;

verus! {

broadcast use vstd::std_specs::vec::group_vec_axioms;

/// One token of the dependency text.
pub enum Token {
    ParOpen,
    ParClose,
    Id(Vec<char>),
    Missing,
}

/// The abstract value of a token.
pub ghost enum TokenView {
    ParOpen,
    ParClose,
    Id(Seq<char>),
    Missing,
}

impl View for Token {
    type V = TokenView;

    open spec fn view(&self) -> TokenView {
        match self {
            Token::ParOpen => TokenView::ParOpen,
            Token::ParClose => TokenView::ParClose,
            Token::Id(s) => TokenView::Id(s@),
            Token::Missing => TokenView::Missing,
        }
    }
}

impl DeepView for Token {
    type V = TokenView;

    open spec fn deep_view(&self) -> TokenView {
        self.view()
    }
}

/// What a flushed identifier buffer contributes: nothing for the empty
/// buffer or the article `a`, the MISSING marker for `missing` and `and`,
/// and an identifier token otherwise.
pub open spec fn classify_word(buf: Seq<char>) -> Seq<TokenView> {
    if buf.len() == 0 || buf == seq!['a'] {
        Seq::empty()
    } else if buf == seq!['m', 'i', 's', 's', 'i', 'n', 'g'] || buf == seq!['a', 'n', 'd'] {
        seq![TokenView::Missing]
    } else {
        seq![TokenView::Id(buf)]
    }
}

/// The token sequence produced from `s`, with `buf` the identifier
/// characters already accumulated: spaces and closing parentheses flush the
/// buffer, parentheses become their tokens, anything else accumulates. A
/// non-empty trailing word always becomes an identifier, with no marker or
/// article treatment.
pub open spec fn spec_tokenize(s: Seq<char>, buf: Seq<char>) -> Seq<TokenView>
    decreases s.len(),
{
    if s.len() == 0 {
        if buf.len() == 0 {
            Seq::empty()
        } else {
            seq![TokenView::Id(buf)]
        }
    } else if s[0] == ')' || s[0] == ' ' {
        classify_word(buf) + (if s[0] == ')' {
            seq![TokenView::ParClose]
        } else {
            Seq::empty()
        }) + spec_tokenize(s.drop_first(), Seq::empty())
    } else if s[0] == '(' {
        seq![TokenView::ParOpen] + spec_tokenize(s.drop_first(), buf)
    } else {
        spec_tokenize(s.drop_first(), buf.push(s[0]))
    }
}

/// Does this buffer read `missing` or `and`?
fn word_is_marker(buf: &Vec<char>) -> (r: bool)
    ensures
        r == (buf@ == seq!['m', 'i', 's', 's', 'i', 'n', 'g'] || buf@ == seq!['a', 'n', 'd']),
{
    let missing = buf.len() == 7 && buf[0] == 'm' && buf[1] == 'i' && buf[2]
        == 's' && buf[3] == 's' && buf[4] == 'i' && buf[5] == 'n'
        && buf[6] == 'g';
    let and = buf.len() == 3 && buf[0] == 'a' && buf[1] == 'n' && buf[2]
        == 'd';
    proof {
        if missing {
            assert(buf@ =~= seq!['m', 'i', 's', 's', 'i', 'n', 'g']);
        }
        if and {
            assert(buf@ =~= seq!['a', 'n', 'd']);
        }
    }
    missing || and
}

/// Is this buffer empty or the article `a`?
fn word_is_skipped(buf: &Vec<char>) -> (r: bool)
    ensures
        r == (buf@.len() == 0 || buf@ == seq!['a']),
{
    let skipped = buf.len() == 0 || (buf.len() == 1 && buf[0] == 'a');
    proof {
        if buf.len() == 1 && buf[0] == 'a' {
            assert(buf@ =~= seq!['a']);
        }
    }
    skipped
}

/// Flush the identifier buffer into the token list.
fn flush_word(tokens: &mut Vec<Token>, buf: Vec<char>)
    ensures
        final(tokens).deep_view() == old(tokens).deep_view() + classify_word(buf@),
{
    if word_is_skipped(&buf) {
        proof {
            assert(tokens.deep_view() =~= old(tokens).deep_view() + classify_word(buf@));
        }
    } else if word_is_marker(&buf) {
        tokens.push(Token::Missing);
        proof {
            assert(tokens.deep_view() =~= old(tokens).deep_view() + classify_word(buf@));
        }
    } else {
        let ghost b = buf@;
        tokens.push(Token::Id(buf));
        proof {
            assert(tokens.deep_view() =~= old(tokens).deep_view() + classify_word(b));
        }
    }
}

/// Tokenize one dependency line.
pub fn tokenize(s: &[char]) -> (r: Vec<Token>)
    ensures
        r.deep_view() == spec_tokenize(s@, Seq::<char>::empty()),
{
    let mut tokens: Vec<Token> = Vec::new();
    let mut buf: Vec<char> = Vec::new();
    let mut i: usize = 0;
    proof {
        assert(s@.skip(0) =~= s@);
        assert(buf@ =~= Seq::<char>::empty());
        assert(tokens.deep_view() =~= Seq::<TokenView>::empty());
        assert(Seq::<TokenView>::empty() + spec_tokenize(s@, Seq::<char>::empty()) =~= spec_tokenize(
            s@,
            Seq::<char>::empty(),
        ));
    }
    while i < s.len()
        invariant
            i <= s@.len(),
            spec_tokenize(s@, Seq::<char>::empty()) == tokens.deep_view() + spec_tokenize(
                s@.skip(i as int),
                buf@,
            ),
        decreases s@.len() - i,
    {
        let ghost pre_tokens = tokens.deep_view();
        let ghost pre_buf = buf@;
        let ghost rest = s@.skip(i as int);
        proof {
            assert(rest[0] == s@[i as int]);
            assert(rest.drop_first() =~= s@.skip(i as int + 1));
        }
        let c = s[i];
        if c == ')' || c == ' ' {
            flush_word(&mut tokens, buf);
            if c == ')' {
                tokens.push(Token::ParClose);
            }
            buf = Vec::new();
            proof {
                assert(tokens.deep_view() =~= pre_tokens + classify_word(pre_buf) + (if c == ')' {
                    seq![TokenView::ParClose]
                } else {
                    Seq::<TokenView>::empty()
                }));
                assert(pre_tokens + spec_tokenize(rest, pre_buf) =~= tokens.deep_view()
                    + spec_tokenize(s@.skip(i as int + 1), buf@));
            }
        } else if c == '(' {
            tokens.push(Token::ParOpen);
            proof {
                assert(tokens.deep_view() =~= pre_tokens + seq![TokenView::ParOpen]);
                assert(pre_tokens + spec_tokenize(rest, pre_buf) =~= tokens.deep_view()
                    + spec_tokenize(s@.skip(i as int + 1), buf@));
            }
        } else {
            buf.push(c);
            proof {
                assert(buf@ =~= pre_buf.push(c));
                assert(pre_tokens + spec_tokenize(rest, pre_buf) =~= tokens.deep_view()
                    + spec_tokenize(s@.skip(i as int + 1), buf@));
            }
        }
        i = i + 1;
    }
    proof {
        assert(s@.skip(s@.len() as int) =~= Seq::<char>::empty());
    }
    let ghost final_tokens = tokens.deep_view();
    let ghost final_buf = buf@;
    if buf.len() > 0 {
        tokens.push(Token::Id(buf));
        proof {
            assert(tokens.deep_view() =~= final_tokens + seq![TokenView::Id(final_buf)]);
        }
    } else {
        proof {
            assert(tokens.deep_view() =~= final_tokens + Seq::<TokenView>::empty());
        }
    }
    tokens
}

/// The nesting depth after the first `i` tokens: opening parentheses
/// increase it, closing ones decrease it.
pub open spec fn depth_at(t: Seq<TokenView>, i: int) -> int
    decreases i,
{
    if i <= 0 {
        0
    } else {
        depth_at(t, i - 1) + (match t[i - 1] {
            TokenView::ParOpen => 1,
            TokenView::ParClose => -1,
            _ => 0,
        })
    }
}

/// Position `i` closes the parenthesis opened at position 0: it is a closing
/// parenthesis that brings the depth back to zero, and no earlier closing
/// parenthesis does.
pub open spec fn is_matching_close(t: Seq<TokenView>, i: int) -> bool {
    &&& 0 <= i < t.len()
    &&& t[i] is ParClose
    &&& depth_at(t, i + 1) == 0
    &&& forall|j: int| 0 <= j < i && t[j] is ParClose ==> depth_at(t, j + 1) > 0
}

/// The depth after `i` tokens is at most `i` in magnitude.
proof fn lemma_depth_bounded(t: Seq<TokenView>, i: int)
    requires
        i >= 0,
    ensures
        -i <= depth_at(t, i) <= i,
    decreases i,
{
    if i > 0 {
        lemma_depth_bounded(t, i - 1);
    }
}

/// Find the closing parenthesis matching the opening one at the start.
pub fn find_matching_paren(tokens: &[Token]) -> (r: usize)
    requires
        exists|i: int| is_matching_close(tokens.deep_view(), i),
    ensures
        is_matching_close(tokens.deep_view(), r as int),
{
    let ghost t = tokens.deep_view();
    let ghost im = choose|i: int| is_matching_close(t, i);
    proof {
        assert(is_matching_close(t, im));
    }
    let mut depth: i128 = 0;
    let mut i: usize = 0;
    loop
        invariant
            t == tokens.deep_view(),
            is_matching_close(t, im),
            0 <= i <= im < t.len(),
            depth == depth_at(t, i as int),
        decreases t.len() - i,
    {
        proof {
            lemma_depth_bounded(t, i as int + 1);
        }
        match &tokens[i] {
            Token::ParClose => {
                depth = depth - 1;
                if depth == 0 {
                    proof {
                        assert(is_matching_close(t, i as int));
                    }
                    return i;
                }
                proof {
                    // The matching close would have brought the depth to
                    // zero, so this is an earlier one.
                    assert(i < im);
                }
            }
            Token::ParOpen => {
                depth = depth + 1;
                proof {
                    assert(!(t[i as int] is ParClose));
                    assert(i < im);
                }
            }
            _ => {
                proof {
                    assert(!(t[i as int] is ParClose));
                    assert(i < im);
                }
            }
        }
        i = i + 1;
    }
}

/// A parsed item: its name, optional sub-name, and the items it is missing.
pub struct Item {
    pub name: Vec<char>,
    pub sub_name: Vec<char>,
    pub missing: Vec<Item>,
}

/// The abstract value of an item.
#[verifier::ext_equal]
pub ghost struct ItemView {
    pub name: Seq<char>,
    pub sub_name: Seq<char>,
    pub missing: Seq<ItemView>,
}

/// The abstract value of an item.
pub open spec fn item_view(it: Item) -> ItemView
    decreases it,
{
    ItemView { name: it.name@, sub_name: it.sub_name@, missing: items_view(it.missing@) }
}

/// The abstract values of a sequence of items, in order.
pub open spec fn items_view(items: Seq<Item>) -> Seq<ItemView>
    decreases items,
{
    if items.len() == 0 {
        Seq::empty()
    } else {
        seq![item_view(items[0])] + items_view(items.drop_first())
    }
}

/// `items_view` maps the sequence element by element.
pub proof fn lemma_items_view(items: Seq<Item>)
    ensures
        items_view(items).len() == items.len(),
        forall|i: int| 0 <= i < items.len() ==> items_view(items)[i] == item_view(#[trigger] items[i]),
    decreases items,
{
    if items.len() > 0 {
        lemma_items_view(items.drop_first());
        assert forall|i: int| 0 <= i < items.len() implies items_view(items)[i] == item_view(
            #[trigger] items[i],
        ) by {
            if i > 0 {
                assert(items.drop_first()[i - 1] == items[i]);
                assert(items_view(items)[i] == items_view(items.drop_first())[i - 1]);
            }
        }
    }
}

/// Appending an item appends its view.
pub proof fn lemma_items_view_push(items: Seq<Item>, it: Item)
    ensures
        items_view(items.push(it)) == items_view(items).push(item_view(it)),
    decreases items,
{
    lemma_items_view(items);
    lemma_items_view(items.push(it));
    assert forall|i: int| 0 <= i < items.len() + 1 implies items_view(items.push(it))[i]
        == items_view(items).push(item_view(it))[i] by {
        assert(items_view(items.push(it))[i] == item_view(items.push(it)[i]));
        if i < items.len() {
            assert(items.push(it)[i] == items[i]);
        } else {
            assert(items.push(it)[i] == it);
        }
    }
    assert(items_view(items.push(it)) =~= items_view(items).push(item_view(it)));
}

/// The unique position closing the parenthesis at the start, if any.
pub open spec fn spec_matching_close(t: Seq<TokenView>) -> Option<int> {
    if exists|i: int| is_matching_close(t, i) {
        Some(choose|i: int| is_matching_close(t, i))
    } else {
        None
    }
}

/// THING = ID | ( ITEM ): the number of tokens consumed and the item, or
/// nothing where the tokens fit neither form.
pub open spec fn spec_thing(t: Seq<TokenView>) -> Option<(int, ItemView)>
    decreases t.len(), 0int,
{
    if t.len() == 0 {
        None
    } else {
        match t[0] {
            TokenView::Id(name) => Some(
                (1int, ItemView { name: name, sub_name: Seq::empty(), missing: Seq::empty() }),
            ),
            TokenView::ParOpen => match spec_matching_close(t) {
                Some(next) => if 1 <= next < t.len() {
                    match spec_item(t.subrange(1, next)) {
                        Some(it) => Some((next + 1, it)),
                        None => None,
                    }
                } else {
                    None
                },
                None => None,
            },
            _ => None,
        }
    }
}

/// ITEM = THING [missing THING [and THING]*]: the item with its missing
/// children attached, or nothing where the tokens fit no item.
pub open spec fn spec_item(t: Seq<TokenView>) -> Option<ItemView>
    decreases t.len(), 2int,
{
    match spec_thing(t) {
        Some((next, it)) => spec_item_more(
            t,
            if next < 1 {
                1
            } else {
                next
            },
            it,
        ),
        None => None,
    }
}

/// The remaining `missing THING` groups of an ITEM, starting at `pos`.
pub open spec fn spec_item_more(t: Seq<TokenView>, pos: int, acc: ItemView) -> Option<ItemView>
    decreases
            (if t.len() - pos >= 0 {
                t.len() - pos
            } else {
                0
            }),
            1int,
{
    if pos >= t.len() {
        Some(acc)
    } else if pos < 1 || !(t[pos] is Missing) {
        None
    } else {
        match spec_thing(t.skip(pos + 1)) {
            Some((adv, child)) => spec_item_more(
                t,
                pos + 1 + (if adv < 1 {
                    1
                } else {
                    adv
                }),
                ItemView { missing: acc.missing.push(child), ..acc },
            ),
            None => None,
        }
    }
}

/// At most one position closes the parenthesis at the start.
pub proof fn lemma_matching_close_unique(t: Seq<TokenView>, i: int, j: int)
    requires
        is_matching_close(t, i),
        is_matching_close(t, j),
    ensures
        i == j,
{
    if i < j {
        assert(depth_at(t, i + 1) > 0);
    }
    if j < i {
        assert(depth_at(t, j + 1) > 0);
    }
}

/// Scan for the closing parenthesis matching an opening one at the start;
/// `None` exactly when there is none.
pub fn matching_paren_check(tokens: &[Token]) -> (r: Option<usize>)
    ensures
        r is Some <==> exists|i: int| is_matching_close(tokens.deep_view(), i),
        (r matches Some(i) ==> is_matching_close(tokens.deep_view(), i as int)),
{
    let ghost t = tokens.deep_view();
    let mut depth: i128 = 0;
    let mut i: usize = 0;
    while i < tokens.len()
        invariant
            t == tokens.deep_view(),
            0 <= i <= t.len(),
            depth == depth_at(t, i as int),
            depth >= 0,
            forall|j: int| 0 <= j < i && (#[trigger] t[j]) is ParClose ==> depth_at(t, j + 1) > 0,
        decreases t.len() - i,
    {
        proof {
            lemma_depth_bounded(t, i as int + 1);
        }
        match &tokens[i] {
            Token::ParClose => {
                depth = depth - 1;
                if depth == 0 {
                    proof {
                        assert(is_matching_close(t, i as int));
                    }
                    return Some(i);
                }
                if depth < 0 {
                    proof {
                        // This close drives the depth negative, so no later
                        // position can satisfy the all-earlier-closes-positive
                        // condition, and no earlier or current one closes at
                        // depth zero.
                        assert forall|m: int| !is_matching_close(t, m) by {
                            if is_matching_close(t, m) {
                                if m > i as int {
                                    assert(depth_at(t, i as int + 1) > 0);
                                } else if m == i as int {
                                    assert(depth_at(t, m + 1) == depth);
                                } else {
                                    assert(depth_at(t, m + 1) > 0);
                                }
                            }
                        }
                    }
                    return None;
                }
            }
            Token::ParOpen => {
                depth = depth + 1;
            }
            _ => {}
        }
        i = i + 1;
    }
    proof {
        // Every close keeps the depth positive, so none brings it to zero.
        assert forall|m: int| !is_matching_close(t, m) by {
            if is_matching_close(t, m) {
                assert(depth_at(t, m + 1) > 0);
            }
        }
    }
    None
}

/// A successful THING consumes between one token and the whole input.
pub proof fn lemma_thing_advances(t: Seq<TokenView>)
    requires
        spec_thing(t) is Some,
    ensures
        1 <= spec_thing(t)->Some_0.0 <= t.len(),
{
}

impl Item {
    /// Parse one THING from the front of the tokens: an identifier, or a
    /// parenthesised ITEM. Returns how many tokens it consumed and the item.
    pub fn thing(tokens: &[Token]) -> (r: (usize, Item))
        requires
            spec_thing(tokens.deep_view()) is Some,
        ensures
            spec_thing(tokens.deep_view()) == Some((r.0 as int, item_view(r.1))),
        decreases tokens@.len(), 0int,
    {
        let ghost t = tokens.deep_view();
        match &tokens[0] {
            Token::Id(name) => {
                let nm = name.clone();
                proof {
                    assert(nm@ =~= name@);
                }
                let this = Item { name: nm, sub_name: Vec::new(), missing: Vec::new() };
                proof {
                    assert(item_view(this) =~~= (ItemView {
                        name: name@,
                        sub_name: Seq::empty(),
                        missing: Seq::empty(),
                    }));
                }
                (1, this)
            }
            Token::ParOpen => {
                let next = find_matching_paren(tokens);
                proof {
                    assert(spec_matching_close(t) == Some(next as int));
                }
                let sub = vstd::slice::slice_subrange(tokens, 1, next);
                proof {
                    assert(sub.deep_view() =~~= t.subrange(1, next as int));
                }
                let this = Self::item(sub);
                (next + 1, this)
            }
            _ => {
                proof {
                    assert(false);
                }
                vstd::pervasive::unreached()
            }
        }
    }

    /// Parse an ITEM: a THING followed by its `missing` groups.
    pub fn item(tokens: &[Token]) -> (r: Item)
        requires
            spec_item(tokens.deep_view()) is Some,
        ensures
            spec_item(tokens.deep_view()) == Some(item_view(r)),
        decreases tokens@.len(), 1int,
    {
        let ghost t = tokens.deep_view();
        proof {
            if !(spec_thing(t) is Some) {
                assert(false);
            }
            lemma_thing_advances(t);
        }
        let (mut next, mut this) = Self::thing(tokens);
        while next < tokens.len()
            invariant
                t == tokens.deep_view(),
                1 <= next,
                spec_item(t) == spec_item_more(t, next as int, item_view(this)),
                spec_item(t) is Some,
            decreases tokens@.len() - next,
        {
            let ghost acc = item_view(this);
            proof {
                if !(t[next as int] is Missing) {
                    assert(false);
                }
                if !(spec_thing(t.skip(next as int + 1)) is Some) {
                    assert(false);
                }
                lemma_thing_advances(t.skip(next as int + 1));
            }
            next = next + 1;
            let sub = vstd::slice::slice_subrange(tokens, next, tokens.len());
            proof {
                assert(sub.deep_view() =~~= t.skip(next as int));
            }
            let (advance, child) = Self::thing(sub);
            next = next + advance;
            let ghost child_view = item_view(child);
            let ghost pre_missing = this.missing@;
            this.missing.push(child);
            proof {
                assert(this.missing@ =~= pre_missing.push(child));
                lemma_items_view_push(pre_missing, child);
                assert(item_view(this) =~~= (ItemView {
                    missing: acc.missing.push(child_view),
                    ..acc
                }));
            }
        }
        this
    }

}

/// Whether the remaining `missing` groups parse does not depend on the
/// accumulated item.
pub proof fn lemma_item_more_ok_any_acc(t: Seq<TokenView>, pos: int, acc1: ItemView, acc2: ItemView)
    ensures
        (spec_item_more(t, pos, acc1) is Some) == (spec_item_more(t, pos, acc2) is Some),
    decreases
            (if t.len() - pos >= 0 {
                t.len() - pos
            } else {
                0
            }),
{
    if pos < t.len() && pos >= 1 && t[pos] is Missing {
        match spec_thing(t.skip(pos + 1)) {
            Some((adv, child)) => {
                let stepped = pos + 1 + (if adv < 1 {
                    1
                } else {
                    adv
                });
                lemma_item_more_ok_any_acc(
                    t,
                    stepped,
                    ItemView { missing: acc1.missing.push(child), ..acc1 },
                    ItemView { missing: acc2.missing.push(child), ..acc2 },
                );
            }
            None => {}
        }
    }
}

/// Decide whether a THING parses at the front of the tokens, and how many
/// tokens it would consume.
pub fn thing_check(tokens: &[Token]) -> (r: Option<usize>)
    ensures
        r is Some <==> spec_thing(tokens.deep_view()) is Some,
        (r matches Some(n) ==> spec_thing(tokens.deep_view()) matches Some(p) && p.0 == n as int),
    decreases tokens@.len(), 0int,
{
    let ghost t = tokens.deep_view();
    if tokens.len() == 0 {
        return None;
    }
    match &tokens[0] {
        Token::Id(_) => Some(1),
        Token::ParOpen => {
            match matching_paren_check(tokens) {
                Some(next) => {
                    proof {
                        let chosen = choose|i: int| is_matching_close(t, i);
                        lemma_matching_close_unique(t, chosen, next as int);
                        assert(spec_matching_close(t) == Some(next as int));
                        if next == 0 {
                            assert(t[0] is ParClose);
                        }
                    }
                    let sub = vstd::slice::slice_subrange(tokens, 1, next);
                    proof {
                        assert(sub.deep_view() =~~= t.subrange(1, next as int));
                    }
                    if item_check(sub) {
                        Some(next + 1)
                    } else {
                        None
                    }
                }
                None => {
                    proof {
                        assert(spec_matching_close(t) is None);
                    }
                    None
                }
            }
        }
        _ => None,
    }
}

/// Decide whether the tokens parse as an ITEM.
pub fn item_check(tokens: &[Token]) -> (r: bool)
    ensures
        r == (spec_item(tokens.deep_view()) is Some),
    decreases tokens@.len(), 1int,
{
    let ghost t = tokens.deep_view();
    let first = thing_check(tokens);
    let n0 = match first {
        Some(n) => n,
        None => {
            return false;
        }
    };
    proof {
        lemma_thing_advances(t);
    }
    let ghost acc0 = spec_thing(t)->Some_0.1;
    let mut next = n0;
    while next < tokens.len()
        invariant
            t == tokens.deep_view(),
            1 <= next,
            (spec_item(t) is Some) == (spec_item_more(t, next as int, acc0) is Some),
        decreases tokens@.len() - next,
    {
        let ghost pos = next as int;
        let is_marker = match &tokens[next] {
            Token::Missing => true,
            _ => false,
        };
        if !is_marker {
            return false;
        }
        next = next + 1;
        let sub = vstd::slice::slice_subrange(tokens, next, tokens.len());
        proof {
            assert(sub.deep_view() =~~= t.skip(next as int));
        }
        match thing_check(sub) {
            None => {
                return false;
            }
            Some(adv) => {
                proof {
                    lemma_thing_advances(t.skip(pos + 1));
                    let child = spec_thing(t.skip(pos + 1))->Some_0.1;
                    lemma_item_more_ok_any_acc(
                        t,
                        pos + 1 + adv as int,
                        ItemView { missing: acc0.missing.push(child), ..acc0 },
                        acc0,
                    );
                }
                next = next + adv;
            }
        }
    }
    true
}

/// The position of the first occurrence of `c` in `s`, or the length of `s`
/// when it does not occur.
pub open spec fn find_char(s: Seq<char>, c: char) -> int
    decreases s.len(),
{
    if s.len() == 0 {
        0
    } else if s[0] == c {
        0
    } else {
        1 + find_char(s.drop_first(), c)
    }
}

/// The first occurrence really is one, and nothing before it matches.
pub proof fn lemma_find_char(s: Seq<char>, c: char)
    ensures
        0 <= find_char(s, c) <= s.len(),
        find_char(s, c) < s.len() ==> s[find_char(s, c)] == c,
        forall|j: int| 0 <= j < find_char(s, c) ==> s[j] != c,
    decreases s.len(),
{
    if s.len() > 0 && s[0] != c {
        lemma_find_char(s.drop_first(), c);
        assert forall|j: int| 0 <= j < find_char(s, c) implies s[j] != c by {
            if j > 0 {
                assert(s.drop_first()[j - 1] != c);
            }
        }
    }
}

/// Scan for the first occurrence of `c`.
fn scan_char(s: &[char], c: char) -> (r: usize)
    ensures
        r as int == find_char(s@, c),
        r <= s@.len(),
{
    proof {
        lemma_find_char(s@, c);
    }
    let mut i: usize = 0;
    while i < s.len()
        invariant
            0 <= find_char(s@, c) <= s@.len(),
            find_char(s@, c) < s@.len() ==> s@[find_char(s@, c)] == c,
            forall|j: int| 0 <= j < find_char(s@, c) ==> s@[j] != c,
            i <= s@.len(),
            forall|j: int| 0 <= j < i ==> s@[j] != c,
        decreases s@.len() - i,
    {
        if s[i] == c {
            proof {
                assert(find_char(s@, c) == i as int) by {
                    if find_char(s@, c) < i as int {
                        assert(s@[find_char(s@, c)] != c);
                    }
                }
            }
            return i;
        }
        i = i + 1;
    }
    proof {
        assert(find_char(s@, c) == s@.len()) by {
            if find_char(s@, c) < s@.len() {
                assert(s@[find_char(s@, c)] != c);
            }
        }
    }
    i
}

/// The name of the item as parsed from a line: the text before the first
/// space of the part before the first period.
pub open spec fn spec_line_name(s: Seq<char>) -> Seq<char> {
    let head = s.take(find_char(s, '.'));
    head.take(find_char(head, ' '))
}

/// The sub-name: the second space-separated piece of the part before the
/// first period, empty when there is none.
pub open spec fn spec_line_sub_name(s: Seq<char>) -> Seq<char> {
    let head = s.take(find_char(s, '.'));
    let rest = head.skip(find_char(head, ' ') + 1);
    if find_char(head, ' ') >= head.len() {
        Seq::empty()
    } else {
        rest.take(find_char(rest, ' '))
    }
}

/// The dependency text: the part between the first and second periods.
pub open spec fn spec_line_deps(s: Seq<char>) -> Seq<char> {
    if find_char(s, '.') >= s.len() {
        Seq::empty()
    } else {
        let rest = s.skip(find_char(s, '.') + 1);
        rest.take(find_char(rest, '.'))
    }
}

impl Item {
    /// Parse one line of dependency text into an item: the name and sub-name
    /// from the part before the first period, the missing children from the
    /// dependency text between the first two periods.
    pub fn from_str(s: &[char]) -> (r: Option<Item>)
        requires
            spec_line_deps(s@).len() > 0 ==> spec_item(
                spec_tokenize(spec_line_deps(s@), Seq::<char>::empty()),
            ) is Some,
        ensures
            r is Some,
            (r matches Some(it) ==> {
                &&& it.name@ == spec_line_name(s@)
                &&& it.sub_name@ == spec_line_sub_name(s@)
                &&& (spec_line_deps(s@).len() == 0 ==> it.missing@.len() == 0)
                &&& (spec_line_deps(s@).len() > 0 ==> items_view(it.missing@) == spec_item(
                    spec_tokenize(spec_line_deps(s@), Seq::<char>::empty()),
                )->Some_0.missing)
            }),
    {
        let dot = scan_char(s, '.');
        let head = vstd::slice::slice_subrange(s, 0, dot);
        proof {
            assert(head@ =~= s@.take(find_char(s@, '.')));
    }
        let space = scan_char(head, ' ');
        let name_slice = vstd::slice::slice_subrange(head, 0, space);
        let mut name: Vec<char> = Vec::new();
        name.extend_from_slice(name_slice);
        proof {
            assert(name@ =~= spec_line_name(s@));
    }
        let mut sub_name: Vec<char> = Vec::new();
        if space < head.len() {
            let rest = vstd::slice::slice_subrange(head, space + 1, head.len());
            proof {
                assert(rest@ =~= head@.skip(find_char(head@, ' ') + 1));
            }
            let space2 = scan_char(rest, ' ');
            sub_name.extend_from_slice(vstd::slice::slice_subrange(rest, 0, space2));
            proof {
                assert(sub_name@ =~= spec_line_sub_name(s@));
            }
        } else {
            proof {
                assert(sub_name@ =~= spec_line_sub_name(s@));
            }
    }
        let mut missing: Vec<Item> = Vec::new();
        if dot < s.len() {
            let rest = vstd::slice::slice_subrange(s, dot + 1, s.len());
            proof {
                assert(rest@ =~= s@.skip(find_char(s@, '.') + 1));
            }
            let dot2 = scan_char(rest, '.');
            let deps = vstd::slice::slice_subrange(rest, 0, dot2);
            proof {
                assert(deps@ =~= spec_line_deps(s@));
            }
            if deps.len() > 0 {
                let tokens = tokenize(deps);
                let parsed = Self::item(tokens.as_slice());
                missing = parsed.missing;
            }
        }
        Some(Item { name, sub_name, missing })
    }

    /// Whether `from_str`'s requirement holds of this line: its dependency
    /// text, if there is any, tokenizes and parses as an ITEM. A host can
    /// test this before parsing a line it does not otherwise trust.
    pub fn line_parses(s: &[char]) -> (r: bool)
        ensures
            r == (spec_line_deps(s@).len() > 0 ==> spec_item(
                spec_tokenize(spec_line_deps(s@), Seq::<char>::empty()),
            ) is Some),
    {
        let dot = scan_char(s, '.');
        if dot >= s.len() {
            proof {
                assert(spec_line_deps(s@).len() == 0);
            }
            return true;
        }
        let rest = vstd::slice::slice_subrange(s, dot + 1, s.len());
        proof {
            assert(rest@ =~= s@.skip(find_char(s@, '.') + 1));
        }
        let dot2 = scan_char(rest, '.');
        let deps = vstd::slice::slice_subrange(rest, 0, dot2);
        proof {
            assert(deps@ =~= spec_line_deps(s@));
        }
        if deps.len() == 0 {
            return true;
        }
        let tokens = tokenize(deps);
        let toks = tokens.as_slice();
        proof {
            assert(toks.deep_view() =~~= tokens.deep_view());
        }
        item_check(toks)
    }

    /// The display name: the sub-name and name separated by a space, or the
    /// name alone when there is no sub-name.
    pub fn name_str(&self) -> (r: Vec<char>)
        ensures
            r@ == spec_name_str(item_view(*self)),
    {
        let mut r: Vec<char> = Vec::new();
        if self.sub_name.len() != 0 {
            r.extend_from_slice(self.sub_name.as_slice());
            r.push(' ');
        }
        r.extend_from_slice(self.name.as_slice());
        proof {
            assert(r@ =~= spec_name_str(item_view(*self)));
        }
        r
    }

    /// The command that picks the item up.
    pub fn take(&self) -> (r: Vec<char>)
        ensures
            r@ == seq!['t', 'a', 'k', 'e', ' '] + spec_name_str(item_view(*self)),
    {
        let mut r: Vec<char> = Vec::new();
        r.push('t');
        r.push('a');
        r.push('k');
        r.push('e');
        r.push(' ');
        let name = self.name_str();
        r.extend_from_slice(name.as_slice());
        proof {
            assert(r@ =~= seq!['t', 'a', 'k', 'e', ' '] + spec_name_str(item_view(*self)));
        }
        r
    }

    /// The command that destroys the item.
    pub fn incinerate(&self) -> (r: Vec<char>)
        ensures
            r@ == seq!['i', 'n', 'c', 'i', 'n', 'e', 'r', 'a', 't', 'e', ' '] + spec_name_str(
                item_view(*self),
            ),
    {
        let mut r: Vec<char> = Vec::new();
        r.push('i');
        r.push('n');
        r.push('c');
        r.push('i');
        r.push('n');
        r.push('e');
        r.push('r');
        r.push('a');
        r.push('t');
        r.push('e');
        r.push(' ');
        let name = self.name_str();
        r.extend_from_slice(name.as_slice());
        proof {
            assert(r@ =~= seq!['i', 'n', 'c', 'i', 'n', 'e', 'r', 'a', 't', 'e', ' ']
                + spec_name_str(item_view(*self)));
        }
        r
    }

    /// Whether the item's name pair is absent from the relevant set.
    pub fn is_irrelevant(&self, relevant_items: &Vec<(Vec<char>, Vec<char>)>) -> (r: bool)
        ensures
            r == !pair_in(relevant_items@, self.name@, self.sub_name@),
    {
        let mut i: usize = 0;
        while i < relevant_items.len()
            invariant
                i <= relevant_items@.len(),
                forall|j: int|
                    0 <= j < i ==> !(#[trigger] relevant_items@[j].0@ == self.name@
                        && relevant_items@[j].1@ == self.sub_name@),
            decreases relevant_items@.len() - i,
        {
            let p = &relevant_items[i];
            if chars_eq(&p.0, &self.name) && chars_eq(&p.1, &self.sub_name) {
                return false;
            }
            i = i + 1;
        }
        true
    }
}

/// The display name of an item: sub-name and name, or the name alone.
pub open spec fn spec_name_str(it: ItemView) -> Seq<char> {
    if it.sub_name.len() == 0 {
        it.name
    } else {
        it.sub_name + seq![' '] + it.name
    }
}

/// A name pair occurs in the sequence.
pub open spec fn pair_in(pairs: Seq<(Vec<char>, Vec<char>)>, name: Seq<char>, sub: Seq<char>) -> bool {
    exists|j: int| 0 <= j < pairs.len() && (#[trigger] pairs[j].0@) == name && pairs[j].1@ == sub
}

/// Character-vector equality.
pub fn chars_eq(a: &Vec<char>, b: &Vec<char>) -> (r: bool)
    ensures
        r == (a@ == b@),
{
    if a.len() != b.len() {
        proof {
            assert(a@ != b@);
        }
        return false;
    }
    let mut i: usize = 0;
    while i < a.len()
        invariant
            a@.len() == b@.len(),
            i <= a@.len(),
            forall|j: int| 0 <= j < i ==> a@[j] == b@[j],
        decreases a@.len() - i,
    {
        if a[i] != b[i] {
            proof {
                assert(a@ != b@);
            }
            return false;
        }
        i = i + 1;
    }
    proof {
        assert(a@ =~= b@);
    }
    true
}

/// The abstract values of a sequence of name pairs.
pub open spec fn pairs_view(ps: Seq<(Vec<char>, Vec<char>)>) -> Seq<(Seq<char>, Seq<char>)> {
    Seq::new(ps.len(), |k: int| (ps[k].0@, ps[k].1@))
}

/// The abstract values of a sequence of names.
pub open spec fn names_view(ns: Seq<Vec<char>>) -> Seq<Seq<char>> {
    Seq::new(ns.len(), |k: int| ns[k]@)
}

/// Whether the pair `(a, b)` occurs among the combinations.
pub fn pair_contains(pairs: &Vec<(Vec<char>, Vec<char>)>, a: &Vec<char>, b: &Vec<char>) -> (r:
    bool)
    ensures
        r == pair_in(pairs@, a@, b@),
{
    let mut i: usize = 0;
    while i < pairs.len()
        invariant
            i <= pairs@.len(),
            forall|j: int|
                0 <= j < i ==> !((#[trigger] pairs@[j].0@) == a@ && pairs@[j].1@ == b@),
        decreases pairs@.len() - i,
    {
        let p = &pairs[i];
        if chars_eq(&p.0, a) && chars_eq(&p.1, b) {
            return true;
        }
        i = i + 1;
    }
    false
}

/// The ordered pairs of distinct inventory entries, both ways round, that
/// the combination set admits — in the order a pairwise sweep visits them.
pub open spec fn spec_possible(
    inv: Seq<Seq<char>>,
    combos: Seq<(Vec<char>, Vec<char>)>,
    i: int,
    j: int,
) -> Seq<(Seq<char>, Seq<char>)>
    decreases inv.len() - i, inv.len() - j,
{
    if i < 0 || j <= i {
        Seq::empty()
    } else if i >= inv.len() {
        Seq::empty()
    } else if j >= inv.len() {
        spec_possible(inv, combos, i + 1, i + 2)
    } else {
        (if pair_in(combos, inv[i], inv[j]) {
            seq![(inv[i], inv[j])]
        } else {
            Seq::empty()
        }) + (if pair_in(combos, inv[j], inv[i]) {
            seq![(inv[j], inv[i])]
        } else {
            Seq::empty()
        }) + spec_possible(inv, combos, i, j + 1)
    }
}

/// The inventory with the first entry equal to `x` taken out.
pub open spec fn remove_first(inv: Seq<Seq<char>>, x: Seq<char>) -> Seq<Seq<char>>
    decreases inv.len(),
{
    if inv.len() == 0 {
        inv
    } else if inv[0] == x {
        inv.drop_first()
    } else {
        seq![inv[0]] + remove_first(inv.drop_first(), x)
    }
}

/// The inventory after the second element of each pair is taken out, in
/// order.
pub open spec fn remove_seconds(
    inv: Seq<Seq<char>>,
    ps: Seq<(Seq<char>, Seq<char>)>,
    k: int,
) -> Seq<Seq<char>>
    decreases ps.len() - k,
{
    if k < 0 || k >= ps.len() {
        inv
    } else {
        remove_seconds(remove_first(inv, ps[k].1), ps, k + 1)
    }
}

/// The `combine` command for each pair, in order.
pub open spec fn combine_cmds(ps: Seq<(Seq<char>, Seq<char>)>) -> Seq<Seq<char>> {
    Seq::new(
        ps.len(),
        |k: int| seq!['c', 'o', 'm', 'b', 'i', 'n', 'e', ' '] + ps[k].0 + seq![' '] + ps[k].1,
    )
}

/// Take the first inventory entry equal to `x` out, if any.
fn remove_entry(inv: &mut Vec<Vec<char>>, x: &Vec<char>)
    ensures
        names_view(final(inv)@) == remove_first(names_view(old(inv)@), x@),
{
    let mut i: usize = 0;
    while i < inv.len()
        invariant
            i <= inv@.len(),
            forall|j: int| 0 <= j < i ==> (#[trigger] inv@[j]@) != x@,
            inv@ == old(inv)@,
        decreases inv@.len() - i,
    {
        if chars_eq(&inv[i], x) {
            inv.remove(i);
            proof {
                lemma_remove_first_at(names_view(old(inv)@), x@, i as int);
                assert(names_view(inv@) =~= remove_first(names_view(old(inv)@), x@));
            }
            return;
        }
        i = i + 1;
    }
    proof {
        lemma_remove_first_absent(names_view(old(inv)@), x@);
        assert(names_view(inv@) =~= remove_first(names_view(old(inv)@), x@));
    }
}

/// Taking out an entry whose first occurrence is at `i` drops exactly that
/// position.
proof fn lemma_remove_first_at(inv: Seq<Seq<char>>, x: Seq<char>, i: int)
    requires
        0 <= i < inv.len(),
        inv[i] == x,
        forall|j: int| 0 <= j < i ==> (#[trigger] inv[j]) != x,
    ensures
        remove_first(inv, x) =~= inv.subrange(0, i) + inv.subrange(i + 1, inv.len() as int),
    decreases i,
{
    if i == 0 {
        assert(remove_first(inv, x) =~= inv.drop_first());
        assert(inv.drop_first() =~= inv.subrange(0, 0) + inv.subrange(1, inv.len() as int));
    } else {
        assert(inv[0] != x);
        assert forall|j: int| 0 <= j < i - 1 implies (#[trigger] inv.drop_first()[j]) != x by {
            assert(inv.drop_first()[j] == inv[j + 1]);
        }
        lemma_remove_first_at(inv.drop_first(), x, i - 1);
        assert(remove_first(inv, x) =~= seq![inv[0]] + remove_first(inv.drop_first(), x));
        assert(remove_first(inv, x) =~= inv.subrange(0, i) + inv.subrange(
            i + 1,
            inv.len() as int,
        ));
    }
}

/// Taking out an absent entry changes nothing.
proof fn lemma_remove_first_absent(inv: Seq<Seq<char>>, x: Seq<char>)
    requires
        forall|j: int| 0 <= j < inv.len() ==> (#[trigger] inv[j]) != x,
    ensures
        remove_first(inv, x) =~= inv,
    decreases inv.len(),
{
    if inv.len() > 0 {
        assert forall|j: int| 0 <= j < inv.len() - 1 implies (#[trigger] inv.drop_first()[j])
            != x by {
            assert(inv.drop_first()[j] == inv[j + 1]);
        }
        lemma_remove_first_absent(inv.drop_first(), x);
    }
}

/// Gather the commands that combine compatible inventory entries: every
/// ordered pair of distinct entries that the combination set admits yields
/// one `combine` command, and each pair's second entry leaves the inventory.
pub fn try_combine(combinations: &Vec<(Vec<char>, Vec<char>)>, inv: &mut Vec<Vec<char>>) -> (r:
    Vec<Vec<char>>)
    ensures
        ({
            let ps = spec_possible(names_view(old(inv)@), combinations@, 0, 1);
            &&& names_view(r@) == combine_cmds(ps)
            &&& names_view(final(inv)@) == remove_seconds(names_view(old(inv)@), ps, 0)
        }),
{
    let ghost inv0 = names_view(inv@);
    let ghost combos = combinations@;
    let mut possible: Vec<(Vec<char>, Vec<char>)> = Vec::new();
    let mut i: usize = 0;
    proof {
        assert(pairs_view(possible@) =~= Seq::<(Seq<char>, Seq<char>)>::empty());
        if inv0.len() > 0 {
            assert(spec_possible(inv0, combos, 0, 1) == Seq::<(Seq<char>, Seq<char>)>::empty()
                + spec_possible(inv0, combos, 0, 1));
        }
    }
    while i < inv.len()
        invariant
            inv@ == old(inv)@,
            inv0 == names_view(inv@),
            combos == combinations@,
            i <= inv@.len(),
            spec_possible(inv0, combos, 0, 1) == pairs_view(possible@) + spec_possible(
                inv0,
                combos,
                i as int,
                i as int + 1,
            ),
        decreases inv@.len() - i,
    {
        let mut j: usize = i + 1;
        while j < inv.len()
            invariant
                inv@ == old(inv)@,
                inv0 == names_view(inv@),
                combos == combinations@,
                i < j,
                i < inv@.len(),
                j <= inv@.len(),
                spec_possible(inv0, combos, 0, 1) == pairs_view(possible@) + spec_possible(
                    inv0,
                    combos,
                    i as int,
                    j as int,
                ),
            decreases inv@.len() - j,
        {
            let ghost pre = pairs_view(possible@);
            if pair_contains(combinations, &inv[i], &inv[j]) {
                let pa = inv[i].clone();
                let pb = inv[j].clone();
                proof {
                    assert(pa@ =~= inv0[i as int] && pb@ =~= inv0[j as int]);
                }
                possible.push((pa, pb));
            }
            let ghost mid = pairs_view(possible@);
            proof {
                assert(mid =~= pre + (if pair_in(combos, inv0[i as int], inv0[j as int]) {
                    seq![(inv0[i as int], inv0[j as int])]
                } else {
                    Seq::<(Seq<char>, Seq<char>)>::empty()
                }));
            }
            if pair_contains(combinations, &inv[j], &inv[i]) {
                let pa = inv[j].clone();
                let pb = inv[i].clone();
                proof {
                    assert(pa@ =~= inv0[j as int] && pb@ =~= inv0[i as int]);
                }
                possible.push((pa, pb));
            }
            proof {
                assert(pairs_view(possible@) =~= mid + (if pair_in(
                    combos,
                    inv0[j as int],
                    inv0[i as int],
                ) {
                    seq![(inv0[j as int], inv0[i as int])]
                } else {
                    Seq::<(Seq<char>, Seq<char>)>::empty()
                }));
                assert(pairs_view(possible@) + spec_possible(inv0, combos, i as int, j as int + 1)
                    =~= pre + spec_possible(inv0, combos, i as int, j as int));
            }
            j = j + 1;
        }
        proof {
            assert(spec_possible(inv0, combos, i as int, inv0.len() as int) == spec_possible(
                inv0,
                combos,
                i as int + 1,
                i as int + 2,
            ));
        }
        i = i + 1;
    }
    proof {
        assert(spec_possible(inv0, combos, i as int, i as int + 1) == Seq::<(
            Seq<char>,
            Seq<char>,
        )>::empty());
        assert(pairs_view(possible@) =~= spec_possible(inv0, combos, 0, 1));
    }
    let ghost ps = spec_possible(inv0, combos, 0, 1);
    let mut k: usize = 0;
    while k < possible.len()
        invariant
            inv0 == names_view(old(inv)@),
            ps == pairs_view(possible@),
            possible@.len() == ps.len(),
            k <= ps.len(),
            remove_seconds(inv0, ps, 0) == remove_seconds(names_view(inv@), ps, k as int),
        decreases possible@.len() - k,
    {
        let ghost pre = names_view(inv@);
        remove_entry(inv, &possible[k].1);
        proof {
            assert(remove_seconds(pre, ps, k as int) == remove_seconds(
                names_view(inv@),
                ps,
                k as int + 1,
            ));
        }
        k = k + 1;
    }
    let mut cmds: Vec<Vec<char>> = Vec::new();
    let mut q: usize = 0;
    while q < possible.len()
        invariant
            ps == pairs_view(possible@),
            possible@.len() == ps.len(),
            q <= ps.len(),
            names_view(cmds@) == combine_cmds(ps).take(q as int),
        decreases possible@.len() - q,
    {
        let mut c: Vec<char> = Vec::new();
        c.push('c');
        c.push('o');
        c.push('m');
        c.push('b');
        c.push('i');
        c.push('n');
        c.push('e');
        c.push(' ');
        c.extend_from_slice(possible[q].0.as_slice());
        c.push(' ');
        c.extend_from_slice(possible[q].1.as_slice());
        proof {
            assert(c@ =~= combine_cmds(ps)[q as int]);
        }
        let ghost pre_cmds = cmds@;
        let ghost cv = c@;
        cmds.push(c);
        proof {
            assert(names_view(cmds@) =~= names_view(pre_cmds).push(cv));
            assert(names_view(pre_cmds).push(cv) =~= combine_cmds(ps).take(q as int + 1));
        }
        q = q + 1;
    }
    proof {
        assert(combine_cmds(ps).take(ps.len() as int) =~= combine_cmds(ps));
    }
    cmds
}

/// A name occurs in the inventory.
pub open spec fn name_in(inv: Seq<Seq<char>>, n: Seq<char>) -> bool {
    exists|j: int| 0 <= j < inv.len() && inv[j] == n
}

/// The inventory with the name added, unless it is already there.
pub open spec fn insert_name(inv: Seq<Seq<char>>, n: Seq<char>) -> Seq<Seq<char>> {
    if name_in(inv, n) {
        inv
    } else {
        inv.push(n)
    }
}

/// Whether the inventory holds this name.
fn name_contains(inv: &Vec<Vec<char>>, n: &Vec<char>) -> (r: bool)
    ensures
        r == name_in(names_view(inv@), n@),
{
    let mut i: usize = 0;
    while i < inv.len()
        invariant
            i <= inv@.len(),
            forall|j: int| 0 <= j < i ==> (#[trigger] inv@[j]@) != n@,
        decreases inv@.len() - i,
    {
        if chars_eq(&inv[i], n) {
            proof {
                assert(names_view(inv@)[i as int] == n@);
            }
            return true;
        }
        i = i + 1;
    }
    proof {
        assert forall|j: int| 0 <= j < names_view(inv@).len() implies names_view(inv@)[j]
            != n@ by {
            assert(inv@[j]@ != n@);
        }
    }
    false
}

/// The collector's state while walking the item list: the commands emitted
/// so far, the inventory held, and the largest size the inventory reached.
#[verifier::ext_equal]
pub ghost struct SolveState {
    pub cmds: Seq<Seq<char>>,
    pub inv: Seq<Seq<char>>,
    pub max_inv: nat,
}

/// One item handled: it is taken; an irrelevant item is incinerated at
/// once; a relevant one joins the inventory (once), the inventory high-water
/// mark is updated, and every combination the inventory now admits is
/// performed.
pub open spec fn spec_solve_step(
    st: SolveState,
    it: Item,
    combos: Seq<(Vec<char>, Vec<char>)>,
    relevant: Seq<(Vec<char>, Vec<char>)>,
) -> SolveState {
    let cmds1 = st.cmds.push(seq!['t', 'a', 'k', 'e', ' '] + spec_name_str(item_view(it)));
    if !pair_in(relevant, it.name@, it.sub_name@) {
        SolveState {
            cmds: cmds1.push(
                seq!['i', 'n', 'c', 'i', 'n', 'e', 'r', 'a', 't', 'e', ' '] + spec_name_str(
                    item_view(it),
                ),
            ),
            inv: st.inv,
            max_inv: st.max_inv,
        }
    } else {
        let inv1 = insert_name(st.inv, it.name@);
        let mx = if inv1.len() > st.max_inv {
            inv1.len()
        } else {
            st.max_inv
        };
        let ps = spec_possible(inv1, combos, 0, 1);
        SolveState { cmds: cmds1 + combine_cmds(ps), inv: remove_seconds(inv1, ps, 0), max_inv: mx }
    }
}

/// The collector's state after the first `k` items.
pub open spec fn spec_solve(
    items: Seq<Item>,
    combos: Seq<(Vec<char>, Vec<char>)>,
    relevant: Seq<(Vec<char>, Vec<char>)>,
    k: int,
) -> SolveState
    decreases k,
{
    if k <= 0 {
        SolveState { cmds: Seq::empty(), inv: Seq::empty(), max_inv: 0 }
    } else {
        spec_solve_step(spec_solve(items, combos, relevant, k - 1), items[k - 1], combos, relevant)
    }
}

/// Walk the item list in order, taking every item, incinerating the
/// irrelevant ones, and combining what the combination set admits; returns
/// the command list and the largest inventory size reached.
pub fn find_commands(
    items: &Vec<Item>,
    combinations: &Vec<(Vec<char>, Vec<char>)>,
    relevant_items: &Vec<(Vec<char>, Vec<char>)>,
) -> (r: (Vec<Vec<char>>, usize))
    ensures
        ({
            let st = spec_solve(items@, combinations@, relevant_items@, items@.len() as int);
            &&& names_view(r.0@) == st.cmds
            &&& r.1 == st.max_inv
        }),
{
    let mut cmds: Vec<Vec<char>> = Vec::new();
    let mut inv: Vec<Vec<char>> = Vec::new();
    let mut max_inv: usize = 0;
    let mut k: usize = 0;
    proof {
        assert(names_view(cmds@) =~= spec_solve(items@, combinations@, relevant_items@, 0).cmds);
        assert(names_view(inv@) =~= spec_solve(items@, combinations@, relevant_items@, 0).inv);
    }
    while k < items.len()
        invariant
            k <= items@.len(),
            names_view(cmds@) == spec_solve(items@, combinations@, relevant_items@, k as int).cmds,
            names_view(inv@) == spec_solve(items@, combinations@, relevant_items@, k as int).inv,
            max_inv == spec_solve(items@, combinations@, relevant_items@, k as int).max_inv,
        decreases items@.len() - k,
    {
        let ghost st = spec_solve(items@, combinations@, relevant_items@, k as int);
        let it = &items[k];
        let tk = it.take();
        let ghost tkv = tk@;
        let ghost pre_cmds = cmds@;
        cmds.push(tk);
        proof {
            assert(names_view(cmds@) =~= names_view(pre_cmds).push(tkv));
        }
        if it.is_irrelevant(relevant_items) {
            let inc = it.incinerate();
            let ghost incv = inc@;
            let ghost pre2 = cmds@;
            cmds.push(inc);
            proof {
                assert(names_view(cmds@) =~= names_view(pre2).push(incv));
                assert(names_view(cmds@) =~= spec_solve(
                    items@,
                    combinations@,
                    relevant_items@,
                    k as int + 1,
                ).cmds);
            }
        } else {
            if !name_contains(&inv, &it.name) {
                let nm = it.name.clone();
                proof {
                    assert(nm@ =~= it.name@);
                }
                let ghost pre_inv = inv@;
                inv.push(nm);
                proof {
                    assert(names_view(inv@) =~= names_view(pre_inv).push(it.name@));
                    assert(names_view(inv@) =~= insert_name(st.inv, it.name@));
                }
            } else {
                proof {
                    assert(names_view(inv@) =~= insert_name(st.inv, it.name@));
                }
            }
            if inv.len() > max_inv {
                max_inv = inv.len();
            }
            let mut more = try_combine(combinations, &mut inv);
            let ghost pre3 = cmds@;
            let ghost morev = names_view(more@);
            cmds.append(&mut more);
            proof {
                assert(names_view(cmds@) =~= names_view(pre3) + morev);
                let st2 = spec_solve(items@, combinations@, relevant_items@, k as int + 1);
                assert(names_view(cmds@) =~= st2.cmds);
                assert(names_view(inv@) =~= st2.inv);
            }
        }
        k = k + 1;
    }
    (cmds, max_inv)
}

} // verus!
