//! The set of function names at which execution breaks, and the (refused)
//! conditional-breakpoint syntax.
use vstd::prelude::*;

use crate::error::DebuggerError;
use crate::text::{
    first_match, first_match_at, lemma_trim_end_idempotent, lemma_trim_end_keeps_start,
    lemma_trim_start_idempotent, matches_at, occurs_in, same_text, to_chars, trim, trim_end,
    trim_range, trim_start, utf8_len, utf8_offset,
};

verus! {

/// The number of comparison operators a condition may use.
pub const OPERATOR_COUNT: usize = 6;

/// The comparison operators, in the order in which a condition is searched
/// for them: two-character operators before their one-character prefixes.
pub open spec fn comparison_operator(k: int) -> Seq<char> {
    if k == 0 {
        seq!['>', '=']
    } else if k == 1 {
        seq!['<', '=']
    } else if k == 2 {
        seq!['=', '=']
    } else if k == 3 {
        seq!['!', '=']
    } else if k == 4 {
        seq!['>']
    } else {
        seq!['<']
    }
}

/// Some comparison operator occurs in `s`.
pub open spec fn has_comparison_operator(s: Seq<char>) -> bool {
    exists|k: int| 0 <= k < OPERATOR_COUNT && occurs_in(s, #[trigger] comparison_operator(k))
}

/// The operator search over `s` settles on operator `k` at index `pos`: `k` is
/// the first operator of the table that occurs in `s`, and `pos` is its first
/// occurrence.
pub open spec fn operator_found_at(s: Seq<char>, k: int, pos: int) -> bool {
    &&& 0 <= k < OPERATOR_COUNT
    &&& first_match_at(s, comparison_operator(k), pos)
    &&& forall|k2: int| 0 <= k2 < k ==> !occurs_in(s, #[trigger] comparison_operator(k2))
}

/// The text on the left of the operator found at `pos`, trimmed.
pub open spec fn left_operand(t: Seq<char>, pos: int) -> Seq<char> {
    trim(t.subrange(0, pos))
}

/// The text on the right of operator `k` found at `pos`, trimmed.
pub open spec fn right_operand(t: Seq<char>, k: int, pos: int) -> Seq<char> {
    trim(t.subrange(pos + comparison_operator(k).len(), t.len() as int))
}

pub open spec fn missing_operator_message() -> Seq<char> {
    "Condition must contain a comparison operator"@
}

pub open spec fn empty_operand_message() -> Seq<char> {
    "Condition must include non-empty left and right operands"@
}

pub open spec fn not_implemented_message() -> Seq<char> {
    "Conditional breakpoints are not yet implemented"@
}

/// Why the condition `s` is refused: it has no comparison operator; or an
/// operand on either side of the operator found is empty; or else
/// conditional breakpoints are not implemented.
pub open spec fn condition_rejection(s: Seq<char>) -> Seq<char> {
    let t = trim(s);
    if !has_comparison_operator(t) {
        missing_operator_message()
    } else if exists|k: int, pos: int|
        operator_found_at(t, k, pos) && (left_operand(t, pos).len() == 0 || right_operand(
            t,
            k,
            pos,
        ).len() == 0) {
        empty_operand_message()
    } else {
        not_implemented_message()
    }
}

/// The operator search settles on at most one operator and position.
pub proof fn lemma_operator_found_unique(s: Seq<char>, k1: int, p1: int, k2: int, p2: int)
    requires
        operator_found_at(s, k1, p1),
        operator_found_at(s, k2, p2),
    ensures
        k1 == k2,
        p1 == p2,
{
    if k1 < k2 {
        assert(matches_at(s, comparison_operator(k1), p1));
        assert(!occurs_in(s, comparison_operator(k1)));
    } else if k2 < k1 {
        assert(matches_at(s, comparison_operator(k2), p2));
        assert(!occurs_in(s, comparison_operator(k2)));
    }
}

/// The text of comparison operator `k`.
fn operator_text(k: usize) -> (op: &'static str)
    requires
        k < OPERATOR_COUNT,
    ensures
        op@ == comparison_operator(k as int),
{
    if k == 0 {
        proof {
            reveal_strlit(">=");
        }
        assert(">="@ =~= seq!['>', '=']);
        ">="
    } else if k == 1 {
        proof {
            reveal_strlit("<=");
        }
        assert("<="@ =~= seq!['<', '=']);
        "<="
    } else if k == 2 {
        proof {
            reveal_strlit("==");
        }
        assert("=="@ =~= seq!['=', '=']);
        "=="
    } else if k == 3 {
        proof {
            reveal_strlit("!=");
        }
        assert("!="@ =~= seq!['!', '=']);
        "!="
    } else if k == 4 {
        proof {
            reveal_strlit(">");
        }
        assert(">"@ =~= seq!['>']);
        ">"
    } else {
        proof {
            reveal_strlit("<");
        }
        assert("<"@ =~= seq!['<']);
        "<"
    }
}

/// Finds the first comparison operator of the table (`>=`, `<=`, `==`, `!=`,
/// `>`, `<`) that occurs in `chars`, with the character index of its first
/// occurrence.
fn find_operator_in(chars: &Vec<char>) -> (r: Option<(&'static str, usize)>)
    ensures
        match r {
            None => !has_comparison_operator(chars@),
            Some((op, pos)) => exists|k: int|
                operator_found_at(chars@, k, pos as int) && op@ == #[trigger] comparison_operator(k),
        },
{
    let mut k: usize = 0;
    while k < OPERATOR_COUNT
        invariant
            k <= OPERATOR_COUNT,
            forall|k2: int| 0 <= k2 < k ==> !occurs_in(chars@, #[trigger] comparison_operator(k2)),
        decreases OPERATOR_COUNT - k,
    {
        let op = operator_text(k);
        let pat = to_chars(op);
        match first_match(chars, &pat) {
            Some(pos) => {
                assert(operator_found_at(chars@, k as int, pos as int));
                return Some((op, pos));
            },
            None => {},
        }
        k = k + 1;
    }
    assert forall|k2: int| 0 <= k2 < OPERATOR_COUNT implies !occurs_in(
        chars@,
        #[trigger] comparison_operator(k2),
    ) by {}
    None
}

/// Finds the first comparison operator of the table (`>=`, `<=`, `==`, `!=`,
/// `>`, `<`) that occurs in `s`, with the byte offset of its first occurrence.
pub fn find_operator(s: &str) -> (r: Option<(&'static str, usize)>)
    ensures
        match r {
            None => !has_comparison_operator(s@),
            Some((op, pos)) => exists|k: int, i: int|
                operator_found_at(s@, k, i) && op@ == #[trigger] comparison_operator(k) && pos
                    == utf8_len(#[trigger] s@.subrange(0, i)),
        },
{
    let chars = to_chars(s);
    match find_operator_in(&chars) {
        None => None,
        Some((op, i)) => {
            let pos = utf8_offset(s, &chars, i);
            Some((op, pos))
        },
    }
}

/// Adding a breakpoint twice is the same as adding it once.
pub proof fn law_add_idempotent(s: Set<Seq<char>>, f: Seq<char>)
    ensures
        s.insert(f).insert(f) == s.insert(f),
{
    assert(s.insert(f).insert(f) =~= s.insert(f));
}

/// After adding a breakpoint, execution breaks there, and removing it
/// reports that it was set and leaves the set as removing it would have
/// before the add.
pub proof fn law_add_then_remove(s: Set<Seq<char>>, f: Seq<char>)
    ensures
        s.insert(f).contains(f),
        s.insert(f).remove(f) == s.remove(f),
        !s.insert(f).remove(f).contains(f),
{
    assert(s.insert(f).remove(f) =~= s.remove(f));
}

/// Adding a name that was not set, then removing it, restores the set.
pub proof fn law_add_remove_restores(s: Set<Seq<char>>, f: Seq<char>)
    requires
        !s.contains(f),
    ensures
        s.insert(f).remove(f) == s,
{
    assert(s.insert(f).remove(f) =~= s);
}

/// Adding or removing one name leaves every other name as it was.
pub proof fn law_other_names_unaffected(s: Set<Seq<char>>, f: Seq<char>, g: Seq<char>)
    requires
        f != g,
    ensures
        s.insert(f).contains(g) == s.contains(g),
        s.remove(f).contains(g) == s.contains(g),
{
}

/// Adding a new name raises the count by one; adding a set one leaves it.
pub proof fn law_add_count(s: Set<Seq<char>>, f: Seq<char>)
    requires
        s.finite(),
    ensures
        s.insert(f).len() == (if s.contains(f) {
            s.len()
        } else {
            s.len() + 1
        }),
{
    if s.contains(f) {
        assert(s.insert(f) =~= s);
    }
}

/// Removing a set name lowers the count by one; removing an unset one leaves it.
pub proof fn law_remove_count(s: Set<Seq<char>>, f: Seq<char>)
    requires
        s.finite(),
    ensures
        s.remove(f).len() == (if s.contains(f) {
            s.len() - 1
        } else {
            s.len() as int
        }),
{
    if !s.contains(f) {
        assert(s.remove(f) =~= s);
    }
}

/// Trimming is idempotent.
pub proof fn lemma_trim_idempotent(s: Seq<char>)
    ensures
        trim(trim(s)) == trim(s),
{
    lemma_trim_start_idempotent(s);
    lemma_trim_end_idempotent(trim_start(s));
    lemma_trim_end_keeps_start(trim_start(s));
}

/// Whitespace around a condition does not change why it is refused.
pub proof fn law_condition_ignores_surrounding_whitespace(s: Seq<char>)
    ensures
        condition_rejection(trim(s)) == condition_rejection(s),
{
    lemma_trim_idempotent(s);
}

/// A call that changes the set of breakpoints.
pub enum BreakpointCall {
    Add(Seq<char>),
    Remove(Seq<char>),
    Clear,
}

/// The breakpoint set after `call`.
pub open spec fn apply_call(s: Set<Seq<char>>, call: BreakpointCall) -> Set<Seq<char>> {
    match call {
        BreakpointCall::Add(f) => s.insert(f),
        BreakpointCall::Remove(f) => s.remove(f),
        BreakpointCall::Clear => Set::empty(),
    }
}

/// The breakpoint set after `calls`, in order.
pub open spec fn apply_calls(s: Set<Seq<char>>, calls: Seq<BreakpointCall>) -> Set<Seq<char>>
    decreases calls.len(),
{
    if calls.len() == 0 {
        s
    } else {
        apply_call(apply_calls(s, calls.drop_last()), calls.last())
    }
}

/// `call` decides whether `f` is a breakpoint: it adds or removes `f`, or
/// clears every breakpoint.
pub open spec fn touches_name(call: BreakpointCall, f: Seq<char>) -> bool {
    call == BreakpointCall::Add(f) || call == BreakpointCall::Remove(f) || call
        == BreakpointCall::Clear
}

/// `calls[i]` is the last of `calls` that decides whether `f` is a breakpoint.
pub open spec fn last_touch_at(calls: Seq<BreakpointCall>, f: Seq<char>, i: int) -> bool {
    &&& 0 <= i < calls.len()
    &&& touches_name(calls[i], f)
    &&& forall|j: int| i < j < calls.len() ==> !touches_name(#[trigger] calls[j], f)
}

/// After any sequence of adds, removes and clears, a name is a breakpoint
/// exactly when the last call that touched it was an add of it; where no
/// call touched it, it is one exactly when it was one before.
pub proof fn law_breakpoint_history(s: Set<Seq<char>>, calls: Seq<BreakpointCall>, f: Seq<char>)
    ensures
        forall|i: int|
            last_touch_at(calls, f, i) ==> (apply_calls(s, calls).contains(f) <==> #[trigger] calls[i]
                == BreakpointCall::Add(f)),
        (forall|j: int| 0 <= j < calls.len() ==> !touches_name(#[trigger] calls[j], f))
            ==> (apply_calls(s, calls).contains(f) <==> s.contains(f)),
    decreases calls.len(),
{
    if calls.len() > 0 {
        let p = calls.drop_last();
        let c = calls.last();
        law_breakpoint_history(s, p, f);
        assert forall|j: int| 0 <= j < p.len() implies #[trigger] p[j] == calls[j] by {}
        if touches_name(c, f) {
            assert forall|i: int| last_touch_at(calls, f, i) implies i == calls.len() - 1 by {
                if i < calls.len() - 1 {
                    assert(!touches_name(calls[calls.len() - 1], f));
                }
            }
            assert(!(forall|j: int| 0 <= j < calls.len() ==> !touches_name(#[trigger] calls[j], f)))
                by {
                assert(touches_name(calls[calls.len() - 1], f));
            }
        } else {
            assert forall|i: int| last_touch_at(calls, f, i) implies last_touch_at(p, f, i) by {
                assert(i != calls.len() - 1);
                assert forall|j: int| i < j < p.len() implies !touches_name(#[trigger] p[j], f) by {
                    assert(p[j] == calls[j]);
                }
            }
            assert forall|i: int| last_touch_at(calls, f, i) implies (apply_calls(
                s,
                calls,
            ).contains(f) <==> #[trigger] calls[i] == BreakpointCall::Add(f)) by {
                assert(last_touch_at(p, f, i));
                assert(p[i] == calls[i]);
            }
            if forall|j: int| 0 <= j < calls.len() ==> !touches_name(#[trigger] calls[j], f) {
                assert forall|j: int| 0 <= j < p.len() implies !touches_name(#[trigger] p[j], f) by {
                    assert(p[j] == calls[j]);
                }
            }
        }
    }
}

/// Manages breakpoints during debugging: a set of function names.
pub struct BreakpointManager {
    breakpoints: Vec<String>,
}

impl BreakpointManager {
    /// The breakpoint names, in the order they are stored.
    pub closed spec fn names(&self) -> Seq<Seq<char>> {
        self.breakpoints@.map_values(|b: String| b@)
    }

    /// No name is stored twice.
    #[verifier::type_invariant]
    closed spec fn well_formed(&self) -> bool {
        self.names().no_duplicates()
    }
}

impl View for BreakpointManager {
    type V = Set<Seq<char>>;

    closed spec fn view(&self) -> Set<Seq<char>> {
        self.names().to_set()
    }
}

impl BreakpointManager {
    /// Parse a condition string into a condition. Conditional breakpoints are
    /// not implemented, so every condition is refused; the error says why.
    pub fn parse_condition(s: &str) -> (r: Result<(), DebuggerError>)
        ensures
            r is Err,
            r->Err_0.message() == condition_rejection(s@),
    {
        let chars = to_chars(s);
        let (a, b) = trim_range(&chars, 0, chars.len());
        assert(chars@.subrange(0, chars@.len() as int) =~= chars@);
        let trimmed = s.substring_char(a, b);
        let ghost t = trim(s@);
        assert(trimmed@ == t);
        let tchars = to_chars(trimmed);
        match find_operator_in(&tchars) {
            None => Err(
                DebuggerError::BreakpointError(
                    "Condition must contain a comparison operator".to_owned(),
                ),
            ),
            Some((op, pos)) => {
                let ghost k = choose|k: int|
                    operator_found_at(t, k, pos as int) && op@ == #[trigger] comparison_operator(k);
                assert(has_comparison_operator(t)) by {
                    assert(matches_at(t, comparison_operator(k), pos as int));
                }
                let op_len = op.unicode_len();
                let (la, lb) = trim_range(&tchars, 0, pos);
                let (ra, rb) = trim_range(&tchars, pos + op_len, tchars.len());
                assert(tchars@.subrange(la as int, lb as int) == left_operand(t, pos as int));
                assert(tchars@.subrange(ra as int, rb as int) == right_operand(
                    t,
                    k,
                    pos as int,
                ));
                if la == lb || ra == rb {
                    Err(
                        DebuggerError::BreakpointError(
                            "Condition must include non-empty left and right operands".to_owned(),
                        ),
                    )
                } else {
                    assert forall|k2: int, p2: int|
                        operator_found_at(t, k2, p2) implies !(left_operand(t, p2).len() == 0
                        || right_operand(t, k2, p2).len() == 0) by {
                        lemma_operator_found_unique(t, k, pos as int, k2, p2);
                    }
                    Err(
                        DebuggerError::BreakpointError(
                            "Conditional breakpoints are not yet implemented".to_owned(),
                        ),
                    )
                }
            },
        }
    }
}

/// Removing the element at `i` from a sequence without duplicates removes
/// exactly that element from its set.
proof fn lemma_remove_distinct(s: Seq<Seq<char>>, i: int)
    requires
        s.no_duplicates(),
        0 <= i < s.len(),
    ensures
        s.remove(i).no_duplicates(),
        s.remove(i).to_set() == s.to_set().remove(s[i]),
{
    let r = s.remove(i);
    assert forall|a: int, b: int| 0 <= a < r.len() && 0 <= b < r.len() && a != b implies r[a]
        != r[b] by {
        let sa = if a < i { a } else { a + 1 };
        let sb = if b < i { b } else { b + 1 };
        assert(r[a] == s[sa]);
        assert(r[b] == s[sb]);
    }
    assert forall|y: Seq<char>| r.to_set().contains(y) <==> s.to_set().remove(s[i]).contains(
        y,
    ) by {
        if r.contains(y) {
            let j = choose|j: int| 0 <= j < r.len() && r[j] == y;
            let sj = if j < i { j } else { j + 1 };
            assert(s[sj] == y);
            assert(s.contains(y));
        }
        if s.contains(y) && y != s[i] {
            let j = choose|j: int| 0 <= j < s.len() && s[j] == y;
            assert(j != i);
            let rj = if j < i { j } else { j - 1 };
            assert(r[rj] == y);
            assert(r.contains(y));
        }
    }
    assert(r.to_set() =~= s.to_set().remove(s[i]));
}

/// Appending an element absent from a sequence without duplicates keeps it
/// without duplicates and adds the element to its set.
proof fn lemma_push_distinct(s: Seq<Seq<char>>, x: Seq<char>)
    requires
        s.no_duplicates(),
        !s.contains(x),
    ensures
        s.push(x).no_duplicates(),
        s.push(x).to_set() == s.to_set().insert(x),
{
    let p = s.push(x);
    assert forall|a: int, b: int| 0 <= a < p.len() && 0 <= b < p.len() && a != b implies p[a]
        != p[b] by {
        if a < s.len() && b < s.len() {
            assert(p[a] == s[a] && p[b] == s[b]);
        } else if a < s.len() {
            assert(p[a] == s[a]);
        } else {
            assert(p[b] == s[b]);
        }
    }
    assert forall|y: Seq<char>| p.to_set().contains(y) <==> s.to_set().insert(x).contains(y) by {
        if p.contains(y) {
            let j = choose|j: int| 0 <= j < p.len() && p[j] == y;
            if j < s.len() {
                assert(s[j] == y);
            }
        }
        if s.contains(y) {
            let j = choose|j: int| 0 <= j < s.len() && s[j] == y;
            assert(p[j] == y);
        }
        if y == x {
            assert(p[s.len() as int] == y);
        }
    }
    assert(p.to_set() =~= s.to_set().insert(x));
}

impl BreakpointManager {
    /// Create a new breakpoint manager with no breakpoints.
    pub fn new() -> (r: Self)
        ensures
            r@ == Set::<Seq<char>>::empty(),
    {
        let r = BreakpointManager { breakpoints: Vec::new() };
        assert(r.names() =~= Seq::<Seq<char>>::empty());
        assert(r@ =~= Set::<Seq<char>>::empty());
        r
    }

    /// The set of breakpoints is finite.
    pub proof fn lemma_finite(&self)
        ensures
            self@.finite(),
    {
        self.names().lemma_cardinality_of_set();
        vstd::seq_lib::seq_to_set_is_finite(self.names());
    }

    /// The position of `function` among the stored names.
    fn index_of(&self, function: &str) -> (r: Option<usize>)
        ensures
            match r {
                Some(i) => i < self.names().len() && self.names()[i as int] == function@,
                None => !self.names().contains(function@),
            },
    {
        let mut i: usize = 0;
        while i < self.breakpoints.len()
            invariant
                i <= self.breakpoints.len(),
                forall|j: int| 0 <= j < i ==> #[trigger] self.names()[j] != function@,
            decreases self.breakpoints.len() - i,
        {
            if same_text(self.breakpoints[i].as_str(), function) {
                return Some(i);
            }
            i = i + 1;
        }
        None
    }

    /// Add a breakpoint at a function name.
    pub fn add(&mut self, function: &str)
        ensures
            final(self)@ == old(self)@.insert(function@),
            final(self)@ == apply_call(old(self)@, BreakpointCall::Add(function@)),
    {
        proof {
            use_type_invariant(&*self);
        }
        match self.index_of(function) {
            Some(i) => {
                assert(self.names().to_set().contains(function@)) by {
                    assert(self.names().contains(function@));
                }
                assert(self@.insert(function@) =~= self@);
            },
            None => {
                let ghost before = self.names();
                let mut bps = Vec::new();
                std::mem::swap(&mut bps, &mut self.breakpoints);
                bps.push(function.to_owned());
                proof {
                    lemma_push_distinct(before, function@);
                    assert(bps@.map_values(|b: String| b@) =~= before.push(function@));
                }
                self.breakpoints = bps;
            },
        }
    }

    /// Remove a breakpoint; says whether there was one.
    pub fn remove(&mut self, function: &str) -> (removed: bool)
        ensures
            removed == old(self)@.contains(function@),
            final(self)@ == old(self)@.remove(function@),
            final(self)@ == apply_call(old(self)@, BreakpointCall::Remove(function@)),
    {
        proof {
            use_type_invariant(&*self);
        }
        match self.index_of(function) {
            Some(i) => {
                let ghost before = self.names();
                let mut bps = Vec::new();
                std::mem::swap(&mut bps, &mut self.breakpoints);
                bps.remove(i);
                proof {
                    lemma_remove_distinct(before, i as int);
                    assert(bps@.map_values(|b: String| b@) =~= before.remove(i as int));
                    assert(before.contains(function@));
                }
                self.breakpoints = bps;
                true
            },
            None => {
                assert(self@.remove(function@) =~= self@);
                false
            },
        }
    }

    /// Check if execution should break at this function.
    pub fn should_break(&self, function: &str) -> (r: bool)
        ensures
            r == self@.contains(function@),
    {
        match self.index_of(function) {
            Some(i) => {
                assert(self.names().contains(function@));
                true
            },
            None => false,
        }
    }

    /// List all breakpoints, each once.
    pub fn list(&self) -> (r: Vec<String>)
        ensures
            r@.map_values(|b: String| b@).no_duplicates(),
            r@.map_values(|b: String| b@).to_set() == self@,
            r.len() == self@.len(),
    {
        proof {
            use_type_invariant(self);
        }
        let mut out: Vec<String> = Vec::new();
        let mut i: usize = 0;
        while i < self.breakpoints.len()
            invariant
                i <= self.breakpoints.len(),
                out@.map_values(|b: String| b@) == self.names().subrange(0, i as int),
            decreases self.breakpoints.len() - i,
        {
            let ghost prev = out@;
            let c = self.breakpoints[i].clone();
            out.push(c);
            assert(out@ == prev.push(c));
            assert(c@ == self.names()[i as int]);
            assert(out@.map_values(|b: String| b@) =~= prev.map_values(|b: String| b@).push(c@));
            assert(out@.map_values(|b: String| b@) =~= self.names().subrange(0, i + 1));
            i = i + 1;
        }
        assert(self.names().subrange(0, i as int) =~= self.names());
        proof {
            self.names().unique_seq_to_set();
        }
        out
    }

    /// Clear all breakpoints.
    pub fn clear(&mut self)
        ensures
            final(self)@ == Set::<Seq<char>>::empty(),
            final(self)@ == apply_call(old(self)@, BreakpointCall::Clear),
    {
        self.breakpoints = Vec::new();
        assert(self.names() =~= Seq::<Seq<char>>::empty());
        assert(self@ =~= Set::<Seq<char>>::empty());
    }

    /// Check if there are no breakpoints set.
    pub fn is_empty(&self) -> (r: bool)
        ensures
            r == (self@.len() == 0),
    {
        self.count() == 0
    }

    /// Get the number of breakpoints.
    pub fn count(&self) -> (r: usize)
        ensures
            r == self@.len(),
    {
        proof {
            use_type_invariant(self);
            self.names().unique_seq_to_set();
        }
        self.breakpoints.len()
    }
}

impl Default for BreakpointManager {
    fn default() -> (r: Self)
        ensures
            r@ == Set::<Seq<char>>::empty(),
    {
        Self::new()
    }
}

} // verus!
