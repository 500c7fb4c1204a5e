use vstd::prelude::*;

use crate::text::{
    all_digits, chars_of, decimal_u64, digits_value, drop_empty, lemma_non_empty_pieces,
    lemma_split_join, lemma_split_nonempty, lemma_split_single, non_empty, parse_decimal, split,
    split_on, views,
};

verus! {

/// The fields of a registry line that the parser reads.
#[derive(Debug, Clone, Copy, PartialEq, Eq, Structural)]
pub enum Field {
    Name,
    Size,
    UsedBy,
}

/// Why a line is not a valid record.
#[derive(Debug, Clone, Copy, PartialEq, Eq, Structural)]
pub enum ParseError {
    /// The line has no such field.
    MissingField(Field),
    /// The field is there but is not a base-10 `u64`.
    InvalidNumber(Field),
}

/// A Linux kernel module.
#[derive(Debug, PartialEq)]
pub struct Module {
    /// The name of the module.
    pub module: String,
    /// The size of the module.
    pub size: u64,
    /// What is using this module.
    pub used_by: Vec<String>,
}

/// What a `Module` holds, as mathematical values.
pub ghost struct ModuleView {
    pub module: Seq<char>,
    pub size: u64,
    pub used_by: Seq<Seq<char>>,
}

impl View for Module {
    type V = ModuleView;

    open spec fn view(&self) -> ModuleView {
        ModuleView { module: self.module@, size: self.size, used_by: views(self.used_by@) }
    }
}

/// The space-separated fields of a line.
pub open spec fn fields(line: Seq<char>) -> Seq<Seq<char>> {
    split(line, ' ')
}

/// The dependents that a raw dependents field names: none for the sentinel `-`,
/// else its comma-separated entries without the empty ones.
pub open spec fn dependents(raw: Seq<char>) -> Seq<Seq<char>> {
    if raw == seq!['-'] {
        Seq::empty()
    } else {
        non_empty(split(raw, ','))
    }
}

/// The record that a line describes: name from the first field, size from the
/// second, dependents from the fourth; later fields are ignored.
pub open spec fn parse_line(line: Seq<char>) -> Result<ModuleView, ParseError> {
    let f = fields(line);
    if f[0].len() == 0 {
        Err(ParseError::MissingField(Field::Name))
    } else if f.len() < 2 {
        Err(ParseError::MissingField(Field::Size))
    } else if decimal_u64(f[1]) is None {
        Err(ParseError::InvalidNumber(Field::Size))
    } else if f.len() < 4 {
        Err(ParseError::MissingField(Field::UsedBy))
    } else {
        Ok(ModuleView { module: f[0], size: decimal_u64(f[1])->0, used_by: dependents(f[3]) })
    }
}

/// The records of several lines, or the error of the first line that has none.
pub open spec fn parse_lines(lines: Seq<Seq<char>>) -> Result<Seq<ModuleView>, ParseError>
    decreases lines.len(),
{
    if lines.len() == 0 {
        Ok(Seq::empty())
    } else {
        match parse_lines(lines.drop_last()) {
            Err(e) => Err(e),
            Ok(done) => match parse_line(lines.last()) {
                Err(e) => Err(e),
                Ok(m) => Ok(done.push(m)),
            },
        }
    }
}

pub open spec fn result_view(r: Result<Module, ParseError>) -> Result<ModuleView, ParseError> {
    match r {
        Ok(m) => Ok(m@),
        Err(e) => Err(e),
    }
}

pub open spec fn lines_view(lines: Seq<&str>) -> Seq<Seq<char>> {
    lines.map_values(|l: &str| l@)
}

pub open spec fn modules_view(v: Seq<Module>) -> Seq<ModuleView> {
    v.map_values(|m: Module| m@)
}

pub open spec fn batch_view(r: Result<Vec<Module>, ParseError>) -> Result<
    Seq<ModuleView>,
    ParseError,
> {
    match r {
        Ok(v) => Ok(modules_view(v@)),
        Err(e) => Err(e),
    }
}

fn is_dash(s: &str) -> (r: bool)
    ensures
        r == (s@ == seq!['-']),
{
    let v = chars_of(s);
    let r = v.len() == 1 && v[0] == '-';
    assert(r ==> v@ =~= seq!['-']);
    r
}

/// An error of one line is the error of every longer list that starts with it.
proof fn lemma_error_persists(lines: Seq<Seq<char>>, i: int)
    requires
        0 <= i <= lines.len(),
        parse_lines(lines.take(i)) is Err,
    ensures
        parse_lines(lines) == parse_lines(lines.take(i)),
    decreases lines.len(),
{
    if i == lines.len() {
        assert(lines.take(i) == lines);
    } else {
        assert(lines.drop_last().take(i) == lines.take(i));
        lemma_error_persists(lines.drop_last(), i);
    }
}

impl Module {
    /// Parse an individual /proc/modules-like line.
    pub fn parse(line: &str) -> (r: Result<Module, ParseError>)
        ensures
            result_view(r) == parse_line(line@),
    {
        let f = split_on(line, ' ');
        proof {
            lemma_split_nonempty(line@, ' ');
        }
        if f[0].as_str().is_empty() {
            return Err(ParseError::MissingField(Field::Name));
        }
        if f.len() < 2 {
            return Err(ParseError::MissingField(Field::Size));
        }
        let size = match parse_decimal(f[1].as_str()) {
            Some(n) => n,
            None => {
                return Err(ParseError::InvalidNumber(Field::Size));
            },
        };
        if f.len() < 4 {
            return Err(ParseError::MissingField(Field::UsedBy));
        }
        let raw = f[3].as_str();
        let used_by = if is_dash(raw) {
            Vec::new()
        } else {
            drop_empty(split_on(raw, ','))
        };
        let m = Module { module: f[0].clone(), size, used_by };
        assert(views(m.used_by@) == dependents(fields(line@)[3]));
        Ok(m)
    }

    /// Parses each line in order; the first line that is not a record ends the
    /// work with its error.
    pub fn parse_from(lines: &[&str]) -> (r: Result<Vec<Module>, ParseError>)
        ensures
            batch_view(r) == parse_lines(lines_view(lines@)),
    {
        let ghost all = lines_view(lines@);
        let mut out: Vec<Module> = Vec::new();
        let mut i: usize = 0;
        assert(all.take(0) =~= Seq::<Seq<char>>::empty());
        assert(modules_view(out@) =~= Seq::<ModuleView>::empty());
        while i < lines.len()
            invariant
                i <= lines.len(),
                all == lines_view(lines@),
                parse_lines(all.take(i as int)) == Ok::<Seq<ModuleView>, ParseError>(
                    modules_view(out@),
                ),
            decreases lines.len() - i,
        {
            proof {
                assert(all.take(i + 1).drop_last() == all.take(i as int));
                assert(all.take(i + 1).last() == lines@[i as int]@);
            }
            match Module::parse(lines[i]) {
                Ok(m) => {
                    let ghost before = modules_view(out@);
                    out.push(m);
                    assert(modules_view(out@) == before.push(m@));
                },
                Err(e) => {
                    proof {
                        lemma_error_persists(all, i + 1);
                    }
                    return Err(e);
                },
            }
            i = i + 1;
        }
        assert(all.take(all.len() as int) == all);
        Ok(out)
    }
}

pub open spec fn has_no_space(s: Seq<char>) -> bool {
    forall|i: int| 0 <= i < s.len() ==> s[i] != ' '
}

/// A line of the documented shape (a non-empty name, a size in decimal digits
/// that fits in 64 bits, a use count, a dependents field, then nothing or more
/// space-led fields) is a record whose name, size and dependents are read from
/// those fields exactly.
pub proof fn lemma_round_trip(
    name: Seq<char>,
    size: Seq<char>,
    count: Seq<char>,
    deps: Seq<char>,
    rest: Seq<char>,
)
    requires
        name.len() > 0,
        has_no_space(name),
        size.len() > 0,
        all_digits(size),
        digits_value(size) <= u64::MAX,
        has_no_space(count),
        has_no_space(deps),
        rest.len() == 0 || rest[0] == ' ',
    ensures
        parse_line(name + seq![' '] + size + seq![' '] + count + seq![' '] + deps + rest) == Ok::<
            ModuleView,
            ParseError,
        >(ModuleView { module: name, size: digits_value(size) as u64, used_by: dependents(deps) }),
{
    let line = name + seq![' '] + size + seq![' '] + count + seq![' '] + deps + rest;
    let tail = deps + rest;
    let third = count + seq![' '] + tail;
    let second = size + seq![' '] + third;
    assert(line =~= name + seq![' '] + second);
    lemma_split_join(name, second, ' ');
    lemma_split_join(size, third, ' ');
    lemma_split_join(count, tail, ' ');
    lemma_split_single(name, ' ');
    assert forall|i: int| 0 <= i < size.len() implies size[i] != ' ' by {
        assert(crate::text::is_digit(size[i]));
    }
    lemma_split_single(size, ' ');
    lemma_split_single(count, ' ');
    lemma_split_single(deps, ' ');
    if rest.len() == 0 {
        assert(tail =~= deps);
    } else {
        assert(tail =~= deps + seq![' '] + rest.drop_first());
        lemma_split_join(deps, rest.drop_first(), ' ');
    }
    lemma_split_nonempty(tail, ' ');
    let f = fields(line);
    assert(f[0] == name);
    assert(f[1] == size);
    assert(f[3] == deps);
    assert(crate::text::is_digit(size[0]));
    assert(crate::text::unsigned_digits(size) == size);
}

/// A dependents field that is the sentinel `-` gives no dependents, whatever the
/// other fields hold.
pub proof fn lemma_sentinel(line: Seq<char>)
    requires
        parse_line(line) is Ok,
        fields(line)[3] == seq!['-'],
    ensures
        (parse_line(line)->Ok_0).used_by.len() == 0,
{
}

/// A comma that ends the dependents field adds no entry.
pub proof fn lemma_trailing_comma(raw: Seq<char>)
    requires
        raw.len() > 0,
        raw.last() == ',',
        raw.drop_last() != seq!['-'],
    ensures
        dependents(raw) == dependents(raw.drop_last()),
{
    assert(raw != seq!['-']) by {
        if raw == seq!['-'] {
            assert(raw.last() == '-');
        }
    }
    lemma_split_nonempty(raw.drop_last(), ',');
    let pieces = split(raw.drop_last(), ',');
    assert(split(raw, ',') == pieces.push(Seq::empty()));
    assert(split(raw, ',').drop_last() =~= pieces);
}

/// No dependent is empty.
pub proof fn lemma_dependents_non_empty(raw: Seq<char>)
    ensures
        forall|i: int| 0 <= i < dependents(raw).len() ==> #[trigger] dependents(raw)[i].len() > 0,
{
    lemma_non_empty_pieces(split(raw, ','));
}

/// Parsing a list of lines gives exactly the error of the first line that is
/// not a record.
pub proof fn lemma_fail_fast(lines: Seq<Seq<char>>, k: int)
    requires
        0 <= k < lines.len(),
        parse_line(lines[k]) is Err,
        forall|j: int| 0 <= j < k ==> #[trigger] parse_line(lines[j]) is Ok,
    ensures
        parse_lines(lines) == Err::<Seq<ModuleView>, ParseError>(parse_line(lines[k])->Err_0),
{
    lemma_prefix_ok(lines.take(k));
    assert(lines.take(k + 1).drop_last() == lines.take(k));
    assert(lines.take(k + 1).last() == lines[k]);
    lemma_error_persists(lines, k + 1);
}

proof fn lemma_prefix_ok(lines: Seq<Seq<char>>)
    requires
        forall|j: int| 0 <= j < lines.len() ==> #[trigger] parse_line(lines[j]) is Ok,
    ensures
        parse_lines(lines) is Ok,
    decreases lines.len(),
{
    if lines.len() > 0 {
        let rest = lines.drop_last();
        assert forall|j: int| 0 <= j < rest.len() implies #[trigger] parse_line(rest[j]) is Ok by {
            assert(rest[j] == lines[j]);
        }
        lemma_prefix_ok(rest);
        assert(parse_line(lines[lines.len() - 1]) is Ok);
    }
}

/// The name is checked first, then the size, then the dependents field: a line
/// without a name is refused for it, one with a name and no other field for
/// the size, and one with a valid size and fewer than four fields for the
/// dependents field.
pub proof fn lemma_missing_field_order(line: Seq<char>)
    ensures
        fields(line)[0].len() == 0 ==> parse_line(line) == Err::<ModuleView, ParseError>(
            ParseError::MissingField(Field::Name),
        ),
        fields(line)[0].len() > 0 && fields(line).len() == 1 ==> parse_line(line) == Err::<
            ModuleView,
            ParseError,
        >(ParseError::MissingField(Field::Size)),
        fields(line)[0].len() > 0 && 2 <= fields(line).len() <= 3 && decimal_u64(fields(line)[1])
            is Some ==> parse_line(line) == Err::<ModuleView, ParseError>(
            ParseError::MissingField(Field::UsedBy),
        ),
{
    lemma_split_nonempty(line, ' ');
}

/// A size field that is present but not a number is refused as an invalid
/// number, not as a missing field.
pub proof fn lemma_invalid_size(line: Seq<char>)
    requires
        fields(line)[0].len() > 0,
        fields(line).len() >= 2,
        decimal_u64(fields(line)[1]) is None,
    ensures
        parse_line(line) == Err::<ModuleView, ParseError>(ParseError::InvalidNumber(Field::Size)),
{
}

} // verus!
