//! That statements can be read back from how they are written.

use vstd::prelude::*;

use crate::ast::layout;
use crate::ast::layout::Layout;
use crate::ast::literal::{LiteralView, NumberView};
use crate::ast::local::{Locals, RcLocal};
use crate::ast::nodes::{RValueView, StatementView};

verus! {

/// What follows a word at the front of a text, where it is there.
pub open spec fn past(text: Seq<char>, word: Seq<char>) -> Option<Seq<char>> {
    if word.len() <= text.len() && text.take(word.len() as int) == word {
        Some(text.skip(word.len() as int))
    } else {
        None
    }
}

/// A reader of the parts that statements are made of: how many characters the
/// names, the expression or the block at the front of a text takes.
pub struct Reader {
    pub names: spec_fn(Seq<char>) -> nat,
    pub value: spec_fn(Seq<char>) -> nat,
    pub block: spec_fn(Seq<char>) -> nat,
}

/// The parts of a statement, as they are written.
pub enum Parts {
    Counting {
        name: Seq<char>,
        initial: Seq<char>,
        limit: Seq<char>,
        step: Option<Seq<char>>,
        body: Seq<char>,
    },
    Iterating { names: Seq<char>, values: Seq<Seq<char>>, body: Seq<char> },
    While { condition: Seq<char>, body: Seq<char> },
    Repeat { body: Seq<char>, condition: Seq<char> },
    Branch { condition: Seq<char>, body: Seq<char>, otherwise: Seq<char> },
    Scope { body: Seq<char> },
}

impl Reader {
    /// The body of a statement that is closed by `end`.
    pub open spec fn body(self, text: Seq<char>) -> Option<Seq<char>> {
        let count = (self.block)(text);
        if past(text.skip(count as int), "end"@) == Some(Seq::<char>::empty()) {
            Some(text.take(count as int))
        } else {
            None
        }
    }

    /// Expressions with commas between, up to the word that opens a body, and
    /// the body.
    pub open spec fn values(self, text: Seq<char>) -> Option<(Seq<Seq<char>>, Seq<char>)>
        decreases text.len(),
    {
        let count = (self.value)(text) as int;
        let value = text.take(count);
        let rest = text.skip(count);
        match past(rest, ", "@) {
            Some(more) => if more.len() < text.len() {
                match self.values(more) {
                    Some((values, body)) => Some((seq![value] + values, body)),
                    None => None,
                }
            } else {
                None
            },
            None => match past(rest, " do\n"@) {
                Some(opened) => match self.body(opened) {
                    Some(body) => Some((seq![value], body)),
                    None => None,
                },
                None => None,
            },
        }
    }

    /// A loop: one that counts where a `=` follows the name, with an expression
    /// to start from, one to go to and maybe one to step by, or one that goes
    /// through what it is given.
    pub open spec fn counted_loop(self, text: Seq<char>) -> Option<Parts> {
        let count = (self.names)(text) as int;
        let name = text.take(count);
        let rest = text.skip(count);
        match past(rest, " = "@) {
            Some(bounds) => match self.values(bounds) {
                Some((values, body)) => if values.len() == 2 {
                    Some(
                        Parts::Counting {
                            name,
                            initial: values[0],
                            limit: values[1],
                            step: None,
                            body,
                        },
                    )
                } else if values.len() == 3 {
                    Some(
                        Parts::Counting {
                            name,
                            initial: values[0],
                            limit: values[1],
                            step: Some(values[2]),
                            body,
                        },
                    )
                } else {
                    None
                },
                None => None,
            },
            None => match past(rest, " in "@) {
                Some(given) => match self.values(given) {
                    Some((values, body)) => Some(Parts::Iterating { names: name, values, body }),
                    None => None,
                },
                None => None,
            },
        }
    }

    /// The statement that a text is.
    pub open spec fn read(self, text: Seq<char>) -> Option<Parts> {
        match past(text, "for "@) {
            Some(rest) => self.counted_loop(rest),
            None => match past(text, "while "@) {
                Some(rest) => {
                    let count = (self.value)(rest) as int;
                    match past(rest.skip(count), " do\n"@) {
                        Some(opened) => match self.body(opened) {
                            Some(body) => Some(
                                Parts::While { condition: rest.take(count), body },
                            ),
                            None => None,
                        },
                        None => None,
                    }
                },
                None => match past(text, "repeat\n"@) {
                    Some(rest) => {
                        let count = (self.block)(rest) as int;
                        match past(rest.skip(count), "until "@) {
                            Some(condition) => Some(
                                Parts::Repeat { body: rest.take(count), condition },
                            ),
                            None => None,
                        }
                    },
                    None => match past(text, "do\n"@) {
                        Some(rest) => match self.body(rest) {
                            Some(body) => Some(Parts::Scope { body }),
                            None => None,
                        },
                        None => match past(text, "if "@) {
                            Some(rest) => {
                                let count = (self.value)(rest) as int;
                                match past(rest.skip(count), " then\n"@) {
                                    Some(opened) => {
                                        let size = (self.block)(opened) as int;
                                        Some(
                                            Parts::Branch {
                                                condition: rest.take(count),
                                                body: opened.take(size),
                                                otherwise: opened.skip(size),
                                            },
                                        )
                                    },
                                    None => None,
                                }
                            },
                            None => None,
                        },
                    },
                },
            },
        }
    }

    /// Whether the reader knows where names end.
    pub open spec fn knows_names(self, written: Seq<char>) -> bool {
        forall|rest: Seq<char>|
            past(rest, " = "@) is Some || past(rest, " in "@) is Some ==> #[trigger] (self.names)(
                written + rest,
            ) == written.len()
    }

    /// Whether the reader knows where an expression ends.
    pub open spec fn knows_value(self, written: Seq<char>) -> bool {
        forall|rest: Seq<char>|
            past(rest, ", "@) is Some || past(rest, " do\n"@) is Some || past(rest, " then\n"@)
                is Some ==> #[trigger] (self.value)(written + rest) == written.len()
    }

    /// Whether the reader knows where a block ends.
    pub open spec fn knows_block(self, written: Seq<char>, closer: Seq<char>) -> bool {
        (self.block)(written + closer) == written.len()
    }

    /// Whether the reader knows where expressions end.
    pub open spec fn knows_values(self, written: Seq<Seq<char>>) -> bool {
        forall|i: int| 0 <= i < written.len() ==> self.knows_value(#[trigger] written[i])
    }
}

/// What follows a word that is put in front.
pub proof fn lemma_past(word: Seq<char>, rest: Seq<char>)
    ensures
        past(word + rest, word) == Some(rest),
{
    assert((word + rest).take(word.len() as int) =~= word);
    assert((word + rest).skip(word.len() as int) =~= rest);
}

/// The parts of a text that is put together.
pub proof fn lemma_split(part: Seq<char>, rest: Seq<char>)
    ensures
        (part + rest).take(part.len() as int) == part,
        (part + rest).skip(part.len() as int) == rest,
{
    assert((part + rest).take(part.len() as int) =~= part);
    assert((part + rest).skip(part.len() as int) =~= rest);
}

/// A text does not start with a word that starts otherwise.
pub proof fn lemma_not_past(word: Seq<char>, rest: Seq<char>, other: Seq<char>, at: int)
    requires
        0 <= at < word.len(),
        at < other.len(),
        word[at] != other[at],
    ensures
        past(word + rest, other) is None,
{
    let text = word + rest;
    if other.len() <= text.len() {
        assert(text.take(other.len() as int)[at] == word[at]);
    }
}

/// Five texts after each other, however they are put together.
proof fn lemma_regrouped(
    a: Seq<char>,
    b: Seq<char>,
    c: Seq<char>,
    d: Seq<char>,
    e: Seq<char>,
)
    ensures
        a + b + c + d + e == a + (b + (c + (d + e))),
{
    assert(a + b + c + d + e =~= a + (b + (c + (d + e))));
}

/// Ten texts after each other.
proof fn lemma_regrouped_loop(
    a: Seq<char>,
    b: Seq<char>,
    c: Seq<char>,
    d: Seq<char>,
    e: Seq<char>,
    f: Seq<char>,
    g: Seq<char>,
    h: Seq<char>,
    i: Seq<char>,
    j: Seq<char>,
)
    ensures
        a + b + c + d + e + f + g + h + i + j == a + (b + (c + ((d + (e + (f + g))) + (h + (i
            + j))))),
{
    lemma_regrouped(a + b + c + d + e, f, g, h, i + j);
    lemma_regrouped(d, e, f + g, h, i + j);
    lemma_regrouped(a, b, c, d + (e + (f + g)), h + (i + j));
    assert(a + b + c + d + e + f + g + h + i + j =~= a + b + c + d + e + (f + (g + (h + (i
        + j)))));
    assert(a + b + c + (d + (e + (f + g))) + (h + (i + j)) =~= a + b + c + d + e + (f + (g + (h + (
    i + j)))));
}

/// Expressions with commas between, then the word that opens a body.
pub open spec fn listed(written: Seq<Seq<char>>, from: int) -> Seq<char>
    decreases written.len() - from,
{
    if 0 <= from < written.len() {
        if from + 1 == written.len() {
            written[from]
        } else {
            written[from] + (", "@ + listed(written, from + 1))
        }
    } else {
        Seq::empty()
    }
}

proof fn lemma_body(reader: Reader, body: Seq<char>)
    requires
        reader.knows_block(body, "end"@),
    ensures
        reader.body(body + "end"@) == Some(body),
{
    lemma_split(body, "end"@);
    lemma_past("end"@, Seq::empty());
    assert("end"@ + Seq::<char>::empty() =~= "end"@);
}

proof fn lemma_values(reader: Reader, written: Seq<Seq<char>>, from: int, body: Seq<char>)
    requires
        0 <= from < written.len(),
        reader.knows_values(written),
        reader.knows_block(body, "end"@),
    ensures
        reader.values(listed(written, from) + (" do\n"@ + (body + "end"@))) == Some(
            (written.skip(from), body),
        ),
    decreases written.len() - from,
{
    reveal_strlit(", ");
    reveal_strlit(" do\n");
    let opened = body + "end"@;
    let ending = " do\n"@ + opened;
    let text = listed(written, from) + ending;
    assert(reader.knows_value(written[from]));
    if from + 1 == written.len() {
        lemma_past(" do\n"@, opened);
        lemma_not_past(" do\n"@, opened, ", "@, 0);
        lemma_split(written[from], ending);
        lemma_body(reader, body);
        assert(written.skip(from) =~= seq![written[from]]);
    } else {
        let more = listed(written, from + 1) + ending;
        let rest = ", "@ + more;
        assert(text =~= written[from] + rest);
        lemma_past(", "@, more);
        lemma_split(written[from], rest);
        lemma_values(reader, written, from + 1, body);
        assert(seq![written[from]] + written.skip(from + 1) =~= written.skip(from));
    }
}

proof fn lemma_three(a: Seq<char>, b: Seq<char>, c: Seq<char>)
    ensures
        listed(seq![a, b], 0) == a + (", "@ + (b + Seq::<char>::empty())),
        listed(seq![a, b, c], 0) == a + (", "@ + (b + (", "@ + c))),
{
    let short = seq![a, b];
    let long = seq![a, b, c];
    assert(b + Seq::<char>::empty() =~= b);
    assert(listed(short, 1) == b);
    assert(listed(long, 2) == c);
    assert(listed(long, 1) == b + (", "@ + c));
}

/// A loop that counts reads back as itself: its name, the expressions that it
/// starts from and goes to, the one that it steps by, which is left out for the
/// number one alone, and its body.
pub proof fn counting_loops_read_back(
    layout: Layout,
    reader: Reader,
    counter: RcLocal,
    initial: RValueView,
    limit: RValueView,
    step: RValueView,
    block: Seq<StatementView>,
)
    requires
        reader.knows_names(Locals::spelling(layout.names, counter)),
        reader.knows_value(layout.value(initial)),
        reader.knows_value(layout.value(limit)),
        reader.knows_value(layout.value(step)),
        reader.knows_block(layout.nested(block), "end"@),
    ensures
        ({
            let written = layout.statement(
                StatementView::NumericFor { initial, limit, step, counter, block },
            );
            reader.read(written) matches Some(
                Parts::Counting { name, initial: start, limit: end, step: by, body },
            ) && {
                &&& name == Locals::spelling(layout.names, counter)
                &&& start == layout.value(initial)
                &&& end == layout.value(limit)
                &&& body == layout.nested(block)
                &&& match by {
                    Some(by) => by == layout.value(step),
                    None => step matches RValueView::Literal(LiteralView::Number(number))
                        && number.equals(NumberView::Integer(1)),
                }
            }
        }),
{
    reveal_strlit(" = ");
    let name = Locals::spelling(layout.names, counter);
    let body = layout.nested(block);
    let a = layout.value(initial);
    let b = layout.value(limit);
    let c = layout.value(step);
    let short = seq![a, b];
    let long = seq![a, b, c];
    let written = layout.statement(
        StatementView::NumericFor { initial, limit, step, counter, block },
    );
    let absent = layout::is_one(step);
    let parts = if absent {
        short
    } else {
        long
    };
    let by = if absent {
        Seq::empty()
    } else {
        ", "@ + c
    };
    lemma_three(a, b, c);
    let rest = listed(parts, 0) + (" do\n"@ + (body + "end"@));
    let bounds = " = "@ + rest;
    assert(listed(parts, 0) == a + (", "@ + (b + by)));
    lemma_regrouped_loop("for "@, name, " = "@, a, ", "@, b, by, " do\n"@, body, "end"@);
    assert(written == "for "@ + (name + bounds));
    lemma_past("for "@, name + bounds);
    lemma_past(" = "@, rest);
    lemma_split(name, bounds);
    lemma_values(reader, parts, 0, body);
    assert(parts.skip(0) =~= parts);
}

/// Two loops that differ in what they step by are written alike only where
/// that is written alike, or where both step by one.
pub proof fn steps_tell_loops_apart(
    layout: Layout,
    reader: Reader,
    counter: RcLocal,
    initial: RValueView,
    limit: RValueView,
    step: RValueView,
    other: RValueView,
    block: Seq<StatementView>,
)
    requires
        reader.knows_names(Locals::spelling(layout.names, counter)),
        reader.knows_value(layout.value(initial)),
        reader.knows_value(layout.value(limit)),
        reader.knows_value(layout.value(step)),
        reader.knows_value(layout.value(other)),
        reader.knows_block(layout.nested(block), "end"@),
        layout.statement(StatementView::NumericFor { initial, limit, step, counter, block })
            == layout.statement(
            StatementView::NumericFor { initial, limit, step: other, counter, block },
        ),
    ensures
        layout.value(step) == layout.value(other) || (step matches RValueView::Literal(
            LiteralView::Number(number),
        ) && number.equals(NumberView::Integer(1)) && (other matches RValueView::Literal(
            LiteralView::Number(number),
        ) && number.equals(NumberView::Integer(1)))),
{
    counting_loops_read_back(layout, reader, counter, initial, limit, step, block);
    counting_loops_read_back(layout, reader, counter, initial, limit, other, block);
}

/// The texts of expressions.
pub open spec fn texts(layout: Layout, values: Seq<RValueView>) -> Seq<Seq<char>> {
    Seq::new(values.len(), |i: int| layout.value(values[i]))
}

proof fn lemma_listed(layout: Layout, values: Seq<RValueView>, from: int, count: int)
    requires
        0 <= from < count <= values.len(),
    ensures
        layout.values_from(values, from, count) == (if from > 0 {
            ", "@
        } else {
            Seq::empty()
        }) + listed(texts(layout, values).take(count), from),
    decreases count - from,
{
    let written = texts(layout, values).take(count);
    assert(written[from] == layout.value(values[from]));
    let rest = layout.values_from(values, from + 1, count);
    if from + 1 < count {
        lemma_listed(layout, values, from + 1, count);
    } else {
        assert(rest =~= Seq::<char>::empty());
    }
    assert(layout.values_from(values, from, count) =~= (if from > 0 {
        ", "@
    } else {
        Seq::empty()
    }) + listed(written, from));
}

proof fn lemma_kept(values: Seq<RValueView>, count: int)
    requires
        0 < count <= values.len(),
    ensures
        1 <= layout::kept_values(values, count) <= count,
        forall|i: int|
            layout::kept_values(values, count) <= i < count ==> #[trigger] values[i]
                == RValueView::Literal(LiteralView::Nil),
    decreases count,
{
    if count > 1 && values[count - 1] == RValueView::Literal(LiteralView::Nil) {
        lemma_kept(values, count - 1);
    }
}

/// A loop that goes through what it is given reads back as itself: its names,
/// the expressions that it is given, of which trailing nils alone are left
/// out, and its body.
pub proof fn iterating_loops_read_back(
    layout: Layout,
    reader: Reader,
    res_locals: Seq<RcLocal>,
    right: Seq<RValueView>,
    block: Seq<StatementView>,
)
    requires
        right.len() > 0,
        reader.knows_names(layout.locals_from(res_locals, 0)),
        reader.knows_values(texts(layout, right)),
        reader.knows_block(layout.nested(block), "end"@),
    ensures
        ({
            let written = layout.statement(
                StatementView::GenericFor { res_locals, right, block },
            );
            reader.read(written) matches Some(Parts::Iterating { names, values, body }) && {
                &&& names == layout.locals_from(res_locals, 0)
                &&& body == layout.nested(block)
                &&& 1 <= values.len() <= right.len()
                &&& forall|i: int|
                    0 <= i < values.len() ==> #[trigger] values[i] == layout.value(right[i])
                &&& forall|i: int|
                    values.len() <= i < right.len() ==> #[trigger] right[i]
                        == RValueView::Literal(LiteralView::Nil)
            }
        }),
{
    reveal_strlit(" = ");
    reveal_strlit(" in ");
    let names = layout.locals_from(res_locals, 0);
    let body = layout.nested(block);
    let count = layout::kept_values(right, right.len() as int);
    lemma_kept(right, right.len() as int);
    let all = texts(layout, right);
    let parts = all.take(count);
    lemma_listed(layout, right, 0, count);
    let rest = listed(parts, 0) + (" do\n"@ + (body + "end"@));
    let given = " in "@ + rest;
    let written = layout.statement(StatementView::GenericFor { res_locals, right, block });
    assert(written =~= "for "@ + (names + given));
    lemma_past("for "@, names + given);
    lemma_past(" in "@, rest);
    lemma_not_past(" in "@, rest, " = "@, 1);
    lemma_split(names, given);
    assert forall|i: int| 0 <= i < parts.len() implies reader.knows_value(#[trigger] parts[i]) by {
        assert(reader.knows_value(all[i]));
    }
    lemma_values(reader, parts, 0, body);
    assert(parts.skip(0) =~= parts);
}

/// A loop with a condition in front reads back as itself.
pub proof fn while_loops_read_back(
    layout: Layout,
    reader: Reader,
    condition: RValueView,
    block: Seq<StatementView>,
)
    requires
        reader.knows_value(layout.value(condition)),
        reader.knows_block(layout.nested(block), "end"@),
    ensures
        reader.read(layout.statement(StatementView::While { condition, block })) == Some(
            Parts::While { condition: layout.value(condition), body: layout.nested(block) },
        ),
{
    reveal_strlit("for ");
    reveal_strlit("while ");
    let body = layout.nested(block);
    let test = layout.value(condition);
    let opened = body + "end"@;
    let rest = test + (" do\n"@ + opened);
    let written = layout.statement(StatementView::While { condition, block });
    assert(written =~= "while "@ + rest);
    lemma_not_past("while "@, rest, "for "@, 0);
    lemma_past("while "@, rest);
    lemma_past(" do\n"@, opened);
    lemma_split(test, " do\n"@ + opened);
    lemma_body(reader, body);
}

/// A loop with a condition behind reads back as itself.
pub proof fn repeat_loops_read_back(
    layout: Layout,
    reader: Reader,
    condition: RValueView,
    block: Seq<StatementView>,
)
    requires
        reader.knows_block(layout.nested(block), "until "@ + layout.value(condition)),
    ensures
        reader.read(layout.statement(StatementView::Repeat { condition, block })) == Some(
            Parts::Repeat { body: layout.nested(block), condition: layout.value(condition) },
        ),
{
    reveal_strlit("for ");
    reveal_strlit("while ");
    reveal_strlit("repeat\n");
    let body = layout.nested(block);
    let test = layout.value(condition);
    let rest = body + ("until "@ + test);
    let written = layout.statement(StatementView::Repeat { condition, block });
    assert(written =~= "repeat\n"@ + rest);
    lemma_not_past("repeat\n"@, rest, "for "@, 0);
    lemma_not_past("repeat\n"@, rest, "while "@, 0);
    lemma_past("repeat\n"@, rest);
    lemma_split(body, "until "@ + test);
    lemma_past("until "@, test);
}

/// A scope reads back as itself.
pub proof fn scopes_read_back(layout: Layout, reader: Reader, block: Seq<StatementView>)
    requires
        reader.knows_block(layout.nested(block), "end"@),
    ensures
        reader.read(layout.statement(StatementView::Do(block))) == Some(
            Parts::Scope { body: layout.nested(block) },
        ),
{
    reveal_strlit("for ");
    reveal_strlit("while ");
    reveal_strlit("repeat\n");
    reveal_strlit("do\n");
    let body = layout.nested(block);
    let rest = body + "end"@;
    let written = layout.statement(StatementView::Do(block));
    assert(written =~= "do\n"@ + rest);
    lemma_not_past("do\n"@, rest, "for "@, 0);
    lemma_not_past("do\n"@, rest, "while "@, 0);
    lemma_not_past("do\n"@, rest, "repeat\n"@, 0);
    lemma_past("do\n"@, rest);
    lemma_body(reader, body);
}

/// The lines of an arm of a branch.
pub open spec fn arm(layout: Layout, block: Seq<StatementView>) -> Seq<char> {
    if block.len() > 0 {
        layout.deeper().block(block) + "\n"@
    } else {
        Seq::empty()
    }
}

/// A branch reads back as itself: its condition, the arm that is taken on it,
/// and what comes otherwise: nothing, a further branch, or the other arm.
pub proof fn branches_read_back(
    layout: Layout,
    reader: Reader,
    condition: RValueView,
    then_block: Seq<StatementView>,
    else_block: Seq<StatementView>,
)
    requires
        reader.knows_value(layout.value(condition)),
        reader.knows_block(arm(layout, then_block), layout.otherwise(else_block)),
    ensures
        ({
            let written = layout.statement(
                StatementView::If { condition, then_block, else_block },
            );
            reader.read(written) matches Some(Parts::Branch { condition: test, body, otherwise })
                && {
                &&& test == layout.value(condition)
                &&& body == arm(layout, then_block)
                &&& past(otherwise, layout.margin()) matches Some(rest) && match past(
                    rest,
                    "else"@,
                ) {
                    None => rest == "end"@ && else_block.len() == 0,
                    Some(other) => match past(other, "\n"@) {
                        Some(opened) => opened == layout.nested(else_block) + "end"@,
                        None => else_block.len() == 1 && else_block[0] is If && other
                            == layout.statement(else_block[0]),
                    },
                }
            }
        }),
{
    reveal_strlit("for ");
    reveal_strlit("while ");
    reveal_strlit("repeat\n");
    reveal_strlit("do\n");
    reveal_strlit("if ");
    let test = layout.value(condition);
    let body = arm(layout, then_block);
    let otherwise = layout.otherwise(else_block);
    let opened = body + otherwise;
    let rest = test + (" then\n"@ + opened);
    let written = layout.statement(StatementView::If { condition, then_block, else_block });
    lemma_regrouped("if "@, test, " then\n"@, body, otherwise);
    assert(written == "if "@ + rest);
    lemma_not_past("if "@, rest, "for "@, 0);
    lemma_not_past("if "@, rest, "while "@, 0);
    lemma_not_past("if "@, rest, "repeat\n"@, 0);
    lemma_not_past("if "@, rest, "do\n"@, 0);
    lemma_past("if "@, rest);
    lemma_past(" then\n"@, opened);
    lemma_split(test, " then\n"@ + opened);
    lemma_split(body, otherwise);
    lemma_otherwise(layout, else_block);
}

/// What comes otherwise in a branch.
proof fn lemma_otherwise(layout: Layout, else_block: Seq<StatementView>)
    ensures
        past(layout.otherwise(else_block), layout.margin()) matches Some(rest) && match past(
            rest,
            "else"@,
        ) {
            None => rest == "end"@ && else_block.len() == 0,
            Some(other) => match past(other, "\n"@) {
                Some(opened) => opened == layout.nested(else_block) + "end"@,
                None => else_block.len() == 1 && else_block[0] is If && other == layout.statement(
                    else_block[0],
                ),
            },
        },
{
    reveal_strlit("else");
    reveal_strlit("else\n");
    reveal_strlit("\n");
    reveal_strlit("end");
    let otherwise = layout.otherwise(else_block);
    let margin = layout.margin();
    if else_block.len() == 0 {
        lemma_past(margin, "end"@);
        assert("end"@ + Seq::<char>::empty() =~= "end"@);
        lemma_not_past("end"@, Seq::empty(), "else"@, 1);
    } else if else_block.len() == 1 && else_block[0] is If {
        let other = layout.statement(else_block[0]);
        lemma_further(layout, else_block[0]);
        assert(otherwise =~= margin + ("else"@ + other));
        lemma_past(margin, "else"@ + other);
        lemma_past("else"@, other);
    } else {
        let closed = layout.nested(else_block) + "end"@;
        assert(otherwise =~= margin + ("else"@ + ("\n"@ + closed)));
        lemma_past(margin, "else"@ + ("\n"@ + closed));
        lemma_past("else"@, "\n"@ + closed);
        lemma_past("\n"@, closed);
    }
}

/// A branch does not start with a line break.
proof fn lemma_further(layout: Layout, statement: StatementView)
    requires
        statement is If,
    ensures
        past(layout.statement(statement), "\n"@) is None,
{
    reveal_strlit("if ");
    reveal_strlit("\n");
    let written = layout.statement(statement);
    assert(written.len() > 0 && written[0] == 'i');
    if past(written, "\n"@) is Some {
        assert(written.take(1)[0] == 'i');
    }
}

/// How many characters stand before the first space or comma from a position
/// on.
pub open spec fn unbroken(text: Seq<char>, from: int) -> nat
    decreases text.len() - from,
{
    if 0 <= from < text.len() && text[from] != ' ' && text[from] != ',' {
        unbroken(text, from + 1) + 1
    } else {
        0
    }
}

/// A reader that ends names and expressions at the first space or comma knows
/// all that hold neither.
pub proof fn unbroken_texts_are_known(reader: Reader, written: Seq<char>)
    requires
        forall|text: Seq<char>| #[trigger] (reader.names)(text) == unbroken(text, 0),
        forall|text: Seq<char>| #[trigger] (reader.value)(text) == unbroken(text, 0),
        !written.contains(' '),
        !written.contains(','),
    ensures
        reader.knows_names(written),
        reader.knows_value(written),
{
    reveal_strlit(" = ");
    reveal_strlit(" in ");
    reveal_strlit(", ");
    reveal_strlit(" do\n");
    reveal_strlit(" then\n");
    assert forall|rest: Seq<char>| rest.len() > 0 && (rest[0] == ' ' || rest[0] == ',')
        implies #[trigger] unbroken(written + rest, 0) == written.len() by {
        lemma_unbroken(written, rest, 0);
    }
    assert forall|rest: Seq<char>|
        past(rest, " = "@) is Some || past(rest, " in "@)
            is Some implies #[trigger] (reader.names)(written + rest) == written.len() by {
        lemma_starts(rest, " = "@);
        lemma_starts(rest, " in "@);
        assert(unbroken(written + rest, 0) == written.len());
    }
    assert forall|rest: Seq<char>|
        past(rest, ", "@) is Some || past(rest, " do\n"@) is Some || past(rest, " then\n"@)
            is Some implies #[trigger] (reader.value)(written + rest) == written.len() by {
        lemma_starts(rest, ", "@);
        lemma_starts(rest, " do\n"@);
        lemma_starts(rest, " then\n"@);
        assert(unbroken(written + rest, 0) == written.len());
    }
}

proof fn lemma_starts(text: Seq<char>, word: Seq<char>)
    requires
        word.len() > 0,
    ensures
        past(text, word) is Some ==> text.len() > 0 && text[0] == word[0],
{
    if past(text, word) is Some {
        assert(text.take(word.len() as int)[0] == text[0]);
    }
}

proof fn lemma_unbroken(written: Seq<char>, rest: Seq<char>, from: int)
    requires
        0 <= from <= written.len(),
        !written.contains(' '),
        !written.contains(','),
        rest.len() > 0,
        rest[0] == ' ' || rest[0] == ',',
    ensures
        unbroken(written + rest, from) == written.len() - from,
    decreases written.len() - from,
{
    let text = written + rest;
    if from < written.len() {
        assert(text[from] == written[from]);
        assert(written.contains(written[from]));
        lemma_unbroken(written, rest, from + 1);
    } else {
        assert(text[from] == rest[0]);
    }
}

} // verus!
