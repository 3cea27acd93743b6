//! SQL statements with their bound values.
use vstd::prelude::*;

verus! {

/// A value bound to a `?`.
#[derive(Clone, Debug, PartialEq, Eq)]
pub enum Bind {
    Text(String),
    Int(i64),
    Null,
}

/// What a bound value holds.
pub enum BindView {
    Text(Seq<char>),
    Int(i64),
    Null,
}

impl View for Bind {
    type V = BindView;

    open spec fn view(&self) -> BindView {
        match *self {
            Bind::Text(s) => BindView::Text(s@),
            Bind::Int(n) => BindView::Int(n),
            Bind::Null => BindView::Null,
        }
    }
}

pub open spec fn bind_views(v: Seq<Bind>) -> Seq<BindView> {
    v.map_values(|b: Bind| b@)
}

/// A text as it is bound, null where there is none.
pub open spec fn text_or_null(s: Option<String>) -> BindView {
    match s {
        Some(t) => BindView::Text(t@),
        None => BindView::Null,
    }
}

/// A truth value as a column holds it.
pub open spec fn flag(on: bool) -> BindView {
    BindView::Int(
        if on {
            1
        } else {
            0
        },
    )
}

/// What a statement holds.
#[verifier::ext_equal]
pub struct StatementView {
    pub sql: Seq<char>,
    pub binds: Seq<BindView>,
}

/// A statement and the values of its `?`, in order.
#[derive(Clone, Debug, PartialEq, Eq)]
pub struct Statement {
    pub sql: String,
    pub binds: Vec<Bind>,
}

impl View for Statement {
    type V = StatementView;

    open spec fn view(&self) -> StatementView {
        StatementView { sql: self.sql@, binds: bind_views(self.binds@) }
    }
}

pub open spec fn statement_views(v: Seq<Statement>) -> Seq<StatementView> {
    v.map_values(|s: Statement| s@)
}

impl Statement {
    /// A part of a statement and the values of its `?`.
    pub fn part(sql: &str) -> (r: Statement)
        ensures
            r.sql@ == sql@,
            bind_views(r.binds@) == Seq::<BindView>::empty(),
    {
        let binds: Vec<Bind> = Vec::new();
        assert(bind_views(binds@) =~= Seq::<BindView>::empty());
        Statement { sql: sql.to_owned(), binds }
    }

    /// Adds a text to the statement.
    pub fn add_sql(&mut self, sql: &str)
        ensures
            final(self).sql@ == old(self).sql@ + sql@,
            bind_views(final(self).binds@) == bind_views(old(self).binds@),
    {
        self.sql.append(sql);
    }

    /// Adds a bound text.
    pub fn bind_text(&mut self, s: &str)
        ensures
            final(self).sql@ == old(self).sql@,
            bind_views(final(self).binds@) == bind_views(old(self).binds@).push(
                BindView::Text(s@),
            ),
    {
        let b: Bind = Bind::Text(s.to_owned());
        assert(bind_views(self.binds@.push(b)) =~= bind_views(self.binds@).push(b@));
        self.binds.push(b);
    }

    /// Adds a bound number.
    pub fn bind_int(&mut self, n: i64)
        ensures
            final(self).sql@ == old(self).sql@,
            bind_views(final(self).binds@) == bind_views(old(self).binds@).push(BindView::Int(n)),
    {
        let b: Bind = Bind::Int(n);
        assert(bind_views(self.binds@.push(b)) =~= bind_views(self.binds@).push(b@));
        self.binds.push(b);
    }

    /// Adds a bound truth value.
    pub fn bind_flag(&mut self, on: bool)
        ensures
            final(self).sql@ == old(self).sql@,
            bind_views(final(self).binds@) == bind_views(old(self).binds@).push(flag(on)),
    {
        self.bind_int(
            if on {
                1
            } else {
                0
            },
        );
    }

    /// Adds a bound text, or null where there is none.
    pub fn bind_opt(&mut self, s: &Option<String>)
        ensures
            final(self).sql@ == old(self).sql@,
            bind_views(final(self).binds@) == bind_views(old(self).binds@).push(
                text_or_null(*s),
            ),
    {
        match s {
            Some(t) => self.bind_text(t.as_str()),
            None => {
                let b: Bind = Bind::Null;
                assert(bind_views(self.binds@.push(b)) =~= bind_views(self.binds@).push(b@));
                self.binds.push(b);
            },
        }
    }

    /// Adds the text and the values of another part.
    pub fn add(&mut self, other: Statement)
        ensures
            final(self).sql@ == old(self).sql@ + other.sql@,
            bind_views(final(self).binds@) == bind_views(old(self).binds@) + bind_views(
                other.binds@,
            ),
    {
        let ghost before = self.binds@;
        let ghost more = other.binds@;
        let Statement { sql, binds } = other;
        self.sql.append(sql.as_str());
        let mut rest: Vec<Bind> = binds;
        self.binds.append(&mut rest);
        assert(bind_views(self.binds@) =~= bind_views(before) + bind_views(more));
    }
}

/// The number that stands for an unsigned one in a signed column.
pub open spec fn signed(v: u64) -> int {
    if v <= i64::MAX {
        v as int
    } else {
        v - 0x1_0000_0000_0000_0000
    }
}

/// The unsigned number that a signed column holds.
pub open spec fn unsigned(n: i64) -> int {
    if n >= 0 {
        n as int
    } else {
        n + 0x1_0000_0000_0000_0000
    }
}

/// Turns an unsigned number into the one that stands for it in a signed column.
pub fn to_signed(v: u64) -> (r: i64)
    ensures
        r == signed(v),
{
    if v <= i64::MAX as u64 {
        v as i64
    } else {
        -((u64::MAX - v) as i64) - 1
    }
}

/// Turns the number of a signed column back.
pub fn to_unsigned(n: i64) -> (r: u64)
    ensures
        r == unsigned(n),
{
    if n >= 0 {
        n as u64
    } else {
        u64::MAX - ((-(n + 1)) as u64)
    }
}

/// A number reads back from a signed column as it was written.
pub proof fn law_column_reads_back(v: u64)
    ensures
        unsigned(signed(v) as i64) == v,
{
}

/// Numbers up to the largest that a signed column holds are held as they are, so that
/// they compare there as they do here.
pub proof fn law_small_numbers_are_held_as_they_are(a: u64, b: u64)
    requires
        a <= i64::MAX,
        b <= i64::MAX,
    ensures
        signed(a) == a,
        signed(a) <= signed(b) <==> a <= b,
        unsigned(a as i64) == a,
{
}

/// A truth value is bound as one or zero, and a missing text as null; binding adds one
/// value behind the others and leaves the text.
pub proof fn law_what_is_bound(
    a: &mut Statement,
    on: bool,
    b: &mut Statement,
    s: &Option<String>,
)
    requires
        call_ensures(Statement::bind_flag, (a, on), ()),
        call_ensures(Statement::bind_opt, (b, s), ()),
    ensures
        final(a).sql@ == old(a).sql@,
        bind_views(final(a).binds@).last() == BindView::Int(
            if on {
                1
            } else {
                0
            },
        ),
        bind_views(final(a).binds@).drop_last() == bind_views(old(a).binds@),
        final(b).sql@ == old(b).sql@,
        *s is None ==> bind_views(final(b).binds@).last() == BindView::Null,
        *s is Some ==> bind_views(final(b).binds@).last() == BindView::Text((*s)->0@),
{
    assert(bind_views(final(a).binds@).drop_last() =~= bind_views(old(a).binds@));
}

} // verus!
