//! What people type into the filter fields, and the filter that it makes.

use vstd::prelude::*;

use crate::command::is_matcher_of;
use crate::dates::{day_number, days_from_civil, is_date};
use crate::filter::{FilterError, NameMatcher, QueryFilter};
use crate::numbers::{all_digits, decimal, decimal_int, decimal_int_reads_back, decimal_reads_back,
    digits_value, is_digit, parse_signed, parse_unsigned, spelled, spelled_within, without_sign};
use crate::targets::text_view;
use crate::text::{a_text_is_split_at_each_place, all_white, chars_of, is_white_space_spec, push_text,
    same_text, split, split_by, strings_view, trim, trim_spec, trimming_leaves_the_text};

verus! {

// ---------------------------------------------------------------------------------------------
// Fields
// ---------------------------------------------------------------------------------------------

/// What a field holds, apart from the white space around it; nothing where it holds no more.
pub open spec fn field_text(value: Seq<char>) -> Option<Seq<char>> {
    if trim_spec(value).len() == 0 {
        None
    } else {
        Some(trim_spec(value))
    }
}

/// What a field holds, apart from the white space around it; nothing where it holds no more.
#[must_use]
pub fn trimmed_string(value: &str) -> (r: Option<String>)
    ensures
        text_view(r) == field_text(value@),
{
    let trimmed = trim(value);
    if chars_of(&trimmed).len() == 0 {
        None
    } else {
        Some(trimmed)
    }
}

/// The size that a field holds: `None` where it holds something else, `Some(None)` where it is
/// empty.
pub open spec fn size_field(value: Seq<char>) -> Option<Option<int>> {
    match field_text(value) {
        None => Some(None),
        Some(text) => match spelled_within(text, false, 0, u64::MAX as int) {
            Some(n) => Some(Some(n)),
            None => None,
        },
    }
}

/// A size as a number.
pub open spec fn size_number(size: Option<u64>) -> Option<int> {
    match size {
        Some(n) => Some(n as int),
        None => None,
    }
}

/// What is said where a field for a size holds something else.
pub open spec fn size_complaint(label: Seq<char>) -> Seq<char> {
    label + " must be a non-negative integer"@
}

/// The size that a field holds, if it holds anything.
pub fn parse_optional_u64(label: &str, value: &str) -> (r: Result<Option<u64>, String>)
    ensures
        match size_field(value@) {
            Some(size) => r matches Ok(n) && size_number(n) == size,
            None => r matches Err(message) && message@ == size_complaint(label@),
        },
{
    match trimmed_string(value) {
        None => Ok(None),
        Some(text) => match parse_unsigned(&text, u64::MAX) {
            Some(n) => Ok(Some(n)),
            None => {
                let mut message = label.to_owned();
                push_text(&mut message, " must be a non-negative integer");
                Err(message)
            },
        },
    }
}

/// The time that a date of the form `YYYY-MM-DD` begins at, in seconds since 1970.
pub open spec fn date_seconds(text: Seq<char>) -> Option<int> {
    let parts = split_by(text, '-');
    if parts.len() != 3 {
        None
    } else {
        match (
            spelled_within(parts[0], true, i32::MIN as int, i32::MAX as int),
            spelled_within(parts[1], false, 0, u32::MAX as int),
            spelled_within(parts[2], false, 0, u32::MAX as int),
        ) {
            (Some(year), Some(month), Some(day)) => if is_date(year, month, day) {
                Some(day_number(year, month, day) * 86_400)
            } else {
                None
            },
            _ => None,
        }
    }
}

proof fn lemma_day_number_bounds(year: int, month: int, day: int)
    requires
        i32::MIN <= year <= i32::MAX,
        is_date(year, month, day),
    ensures
        -1_000_000_000_000 < day_number(year, month, day) < 1_000_000_000_000,
{
    reveal_with_fuel(crate::dates::days_before_month, 13);
}

/// The time that a date of the form `YYYY-MM-DD` begins at, in seconds since 1970.
#[must_use]
pub fn parse_ymd_to_unix_seconds(value: &str) -> (r: Option<i64>)
    ensures
        r is Some == date_seconds(value@) is Some,
        r matches Some(n) ==> n == date_seconds(value@)->0,
{
    let parts = split(value, '-');
    let ghost texts = split_by(value@, '-');
    assert(strings_view(parts@).len() == parts@.len());
    if parts.len() != 3 {
        return None;
    }
    assert(texts[0] == parts@[0]@ && texts[1] == parts@[1]@ && texts[2] == parts@[2]@);
    match (
        parse_signed(&parts[0], -2_147_483_648, 2_147_483_647),
        parse_unsigned(&parts[1], 0xffff_ffff),
        parse_unsigned(&parts[2], 0xffff_ffff),
    ) {
        (Some(year), Some(month), Some(day)) => match days_from_civil(
            year as i32,
            month as u32,
            day as u32,
        ) {
            Some(days) => {
                proof {
                    lemma_day_number_bounds(year as int, month as int, day as int);
                }
                Some(days * 86_400)
            },
            None => None,
        },
        _ => None,
    }
}

/// The time that a field holds, in seconds since 1970 or as a date: `None` where it holds something
/// else, `Some(None)` where it is empty.
pub open spec fn time_field(value: Seq<char>) -> Option<Option<int>> {
    match field_text(value) {
        None => Some(None),
        Some(text) => match spelled_within(text, true, i64::MIN as int, i64::MAX as int) {
            Some(n) => Some(Some(n)),
            None => match date_seconds(text) {
                Some(n) => Some(Some(n)),
                None => None,
            },
        },
    }
}

/// A time as a number.
pub open spec fn time_number(time: Option<i64>) -> Option<int> {
    match time {
        Some(n) => Some(n as int),
        None => None,
    }
}

/// What is said where a field for a time holds something else.
pub open spec fn time_complaint(label: Seq<char>) -> Seq<char> {
    label + " must be Unix seconds or YYYY-MM-DD"@
}

/// The time that a field holds, if it holds anything.
pub fn parse_optional_unix_seconds(label: &str, value: &str) -> (r: Result<Option<i64>, String>)
    ensures
        match time_field(value@) {
            Some(time) => r matches Ok(n) && time_number(n) == time,
            None => r matches Err(message) && message@ == time_complaint(label@),
        },
{
    match trimmed_string(value) {
        None => Ok(None),
        Some(text) => {
            if let Some(n) = parse_signed(&text, i64::MIN, i64::MAX) {
                return Ok(Some(n));
            }
            match parse_ymd_to_unix_seconds(&text) {
                Some(n) => Ok(Some(n)),
                None => {
                    let mut message = label.to_owned();
                    push_text(&mut message, " must be Unix seconds or YYYY-MM-DD");
                    Err(message)
                },
            }
        },
    }
}

// ---------------------------------------------------------------------------------------------
// All fields
// ---------------------------------------------------------------------------------------------

/// What stands in the filter fields.
#[derive(Debug)]
pub struct FilterInputs {
    pub name: String,
    pub extension: String,
    pub path: String,
    pub min_size: String,
    pub max_size: String,
    pub min_allocated: String,
    pub max_allocated: String,
    pub modified_after: String,
    pub modified_before: String,
    pub regex: bool,
    pub include_directories: bool,
}

/// What stands in the filter fields.
pub struct InputsView {
    pub name: Seq<char>,
    pub extension: Seq<char>,
    pub path: Seq<char>,
    pub min_size: Seq<char>,
    pub max_size: Seq<char>,
    pub min_allocated: Seq<char>,
    pub max_allocated: Seq<char>,
    pub modified_after: Seq<char>,
    pub modified_before: Seq<char>,
    pub regex: bool,
    pub include_directories: bool,
}

impl View for FilterInputs {
    type V = InputsView;

    open spec fn view(&self) -> InputsView {
        InputsView {
            name: self.name@,
            extension: self.extension@,
            path: self.path@,
            min_size: self.min_size@,
            max_size: self.max_size@,
            min_allocated: self.min_allocated@,
            max_allocated: self.max_allocated@,
            modified_after: self.modified_after@,
            modified_before: self.modified_before@,
            regex: self.regex,
            include_directories: self.include_directories,
        }
    }
}

/// Why the fields make no filter.
#[derive(Debug)]
pub enum InputError {
    /// A pattern was not compiled.
    Pattern(FilterError),
    /// A field holds what it cannot hold; this is what is said of it.
    Message(String),
}

impl Default for FilterInputs {
    /// Empty fields, without directories.
    fn default() -> (r: Self)
        ensures
            r@ == (InputsView {
                name: Seq::empty(),
                extension: Seq::empty(),
                path: Seq::empty(),
                min_size: Seq::empty(),
                max_size: Seq::empty(),
                min_allocated: Seq::empty(),
                max_allocated: Seq::empty(),
                modified_after: Seq::empty(),
                modified_before: Seq::empty(),
                regex: false,
                include_directories: false,
            }),
    {
        let r = FilterInputs {
            name: String::new(),
            extension: String::new(),
            path: String::new(),
            min_size: String::new(),
            max_size: String::new(),
            min_allocated: String::new(),
            max_allocated: String::new(),
            modified_after: String::new(),
            modified_before: String::new(),
            regex: false,
            include_directories: false,
        };
        assert(r.name@ =~= Seq::<char>::empty());
        r
    }
}

/// What is said of the first field that holds what it cannot hold.
pub open spec fn first_complaint(inputs: InputsView) -> Option<Seq<char>> {
    if size_field(inputs.min_size) is None {
        Some(size_complaint("Min size"@))
    } else if size_field(inputs.max_size) is None {
        Some(size_complaint("Max size"@))
    } else if size_field(inputs.min_allocated) is None {
        Some(size_complaint("Min allocated"@))
    } else if size_field(inputs.max_allocated) is None {
        Some(size_complaint("Max allocated"@))
    } else if time_field(inputs.modified_after) is None {
        Some(time_complaint("Modified after"@))
    } else if time_field(inputs.modified_before) is None {
        Some(time_complaint("Modified before"@))
    } else {
        None
    }
}

/// Whether a filter asks for what stands in the fields, apart from names and paths.
pub open spec fn asks_for(filter: QueryFilter, inputs: InputsView) -> bool {
    &&& text_view(filter.extension) == field_text(inputs.extension)
    &&& size_field(inputs.min_size) == Some(size_number(filter.min_size))
    &&& size_field(inputs.max_size) == Some(size_number(filter.max_size))
    &&& size_field(inputs.min_allocated) == Some(size_number(filter.min_allocated))
    &&& size_field(inputs.max_allocated) == Some(size_number(filter.max_allocated))
    &&& time_field(inputs.modified_after) == Some(time_number(filter.modified_after))
    &&& time_field(inputs.modified_before) == Some(time_number(filter.modified_before))
    &&& filter.include_directories == inputs.include_directories
}

/// Whether a matcher is the one for this field: none for an empty field, else one for texts with a
/// match of the pattern or with the text in them.
pub open spec fn is_matcher_for(matcher: Option<NameMatcher>, value: Seq<char>, regex: bool) -> bool {
    is_matcher_of(matcher, field_text(value), regex)
}

/// The matcher for a field.
pub fn matcher_from_input(value: &str, regex: bool) -> (r: Result<Option<NameMatcher>, FilterError>)
    ensures
        r matches Ok(matcher) ==> is_matcher_for(matcher, value@, regex),
        !regex || field_text(value@) is None ==> r is Ok,
{
    match trimmed_string(value) {
        None => Ok(None),
        Some(text) => if regex {
            match NameMatcher::regex(&text) {
                Ok(matcher) => Ok(Some(matcher)),
                Err(error) => Err(error),
            }
        } else {
            Ok(Some(NameMatcher::contains(&text)))
        },
    }
}

impl FilterInputs {
    /// The filter that the fields make with these matchers for names and paths.
    pub fn filter_with(&self, name: Option<NameMatcher>, path: Option<NameMatcher>) -> (r: Result<
        QueryFilter,
        String,
    >)
        ensures
            match first_complaint(self@) {
                Some(complaint) => r matches Err(message) && message@ == complaint,
                None => r matches Ok(filter) && asks_for(filter, self@) && filter.name == name
                    && filter.path == path,
            },
    {
        let extension = trimmed_string(&self.extension);
        let min_size = parse_optional_u64("Min size", &self.min_size)?;
        let max_size = parse_optional_u64("Max size", &self.max_size)?;
        let min_allocated = parse_optional_u64("Min allocated", &self.min_allocated)?;
        let max_allocated = parse_optional_u64("Max allocated", &self.max_allocated)?;
        let modified_after = parse_optional_unix_seconds("Modified after", &self.modified_after)?;
        let modified_before = parse_optional_unix_seconds("Modified before", &self.modified_before)?;
        Ok(
            QueryFilter {
                name,
                extension,
                path,
                min_size,
                max_size,
                min_allocated,
                max_allocated,
                modified_after,
                modified_before,
                include_directories: self.include_directories,
            },
        )
    }

    /// The filter that the fields make.
    pub fn query_filter(&self) -> (r: Result<QueryFilter, InputError>)
        ensures
            match r {
                Ok(filter) => asks_for(filter, self@) && is_matcher_for(
                    filter.name,
                    self@.name,
                    self@.regex,
                ) && is_matcher_for(filter.path, self@.path, self@.regex),
                Err(InputError::Message(message)) => first_complaint(self@) == Some(message@),
                Err(InputError::Pattern(_)) => self@.regex && (field_text(self@.name) is Some
                    || field_text(self@.path) is Some),
            },
    {
        let name = match matcher_from_input(&self.name, self.regex) {
            Ok(matcher) => matcher,
            Err(error) => {
                return Err(InputError::Pattern(error));
            },
        };
        let path = match matcher_from_input(&self.path, self.regex) {
            Ok(matcher) => matcher,
            Err(error) => {
                return Err(InputError::Pattern(error));
            },
        };
        match self.filter_with(name, path) {
            Ok(filter) => Ok(filter),
            Err(message) => Err(InputError::Message(message)),
        }
    }

    /// What stands in the fields, to be held against later.
    #[must_use]
    pub fn signature(&self) -> (r: FilterInputs)
        ensures
            r@ == self@,
    {
        FilterInputs {
            name: self.name.clone(),
            extension: self.extension.clone(),
            path: self.path.clone(),
            min_size: self.min_size.clone(),
            max_size: self.max_size.clone(),
            min_allocated: self.min_allocated.clone(),
            max_allocated: self.max_allocated.clone(),
            modified_after: self.modified_after.clone(),
            modified_before: self.modified_before.clone(),
            regex: self.regex,
            include_directories: self.include_directories,
        }
    }

    /// Whether the same stands in these fields.
    #[must_use]
    pub fn is_same(&self, other: &FilterInputs) -> (r: bool)
        ensures
            r == (self@ == other@),
    {
        same_text(&self.name, &other.name) && same_text(&self.extension, &other.extension)
            && same_text(&self.path, &other.path) && same_text(&self.min_size, &other.min_size)
            && same_text(&self.max_size, &other.max_size) && same_text(
            &self.min_allocated,
            &other.min_allocated,
        ) && same_text(&self.max_allocated, &other.max_allocated) && same_text(
            &self.modified_after,
            &other.modified_after,
        ) && same_text(&self.modified_before, &other.modified_before) && self.regex == other.regex
            && self.include_directories == other.include_directories
    }
}

// ---------------------------------------------------------------------------------------------
// Laws
// ---------------------------------------------------------------------------------------------

proof fn lemma_digits_are_seen(digits: Seq<char>)
    requires
        all_digits(digits),
        digits.len() > 0,
    ensures
        !is_white_space_spec(digits[0]),
        !is_white_space_spec(digits.last()),
        !digits.contains('-'),
        spelled(digits, false) == Some(digits_value(digits) as int),
        spelled(digits, true) == Some(digits_value(digits) as int),
{
    assert(is_digit(digits[0]));
    assert(is_digit(digits[digits.len() - 1]));
    if digits.contains('-') {
        let k = choose|k: int| 0 <= k < digits.len() && digits[k] == '-';
        assert(is_digit(digits[k]));
    }
}

/// A field with nothing but white space in it asks for nothing.
pub proof fn an_empty_field_asks_for_nothing(value: Seq<char>)
    requires
        all_white(value),
    ensures
        field_text(value) is None,
        size_field(value) == Some(None::<int>),
        time_field(value) == Some(None::<int>),
{
    trimming_leaves_the_text(value, Seq::empty(), Seq::empty());
    assert(value + Seq::<char>::empty() + Seq::<char>::empty() =~= value);
}

/// The white space around a text in a field does not count.
pub proof fn white_space_around_does_not_count(before: Seq<char>, text: Seq<char>, after: Seq<char>)
    requires
        all_white(before),
        all_white(after),
        text.len() > 0,
        !is_white_space_spec(text[0]),
        !is_white_space_spec(text.last()),
    ensures
        field_text(before + text + after) == Some(text),
        size_field(before + text + after) == size_field(text),
        time_field(before + text + after) == time_field(text),
{
    trimming_leaves_the_text(before, text, after);
    trimming_leaves_the_text(Seq::empty(), text, Seq::empty());
    assert(Seq::<char>::empty() + text + Seq::<char>::empty() =~= text);
}

/// A number that is written into a field is read back: a size where it can be counted, a time with a
/// minus sign too.
pub proof fn a_written_number_is_read_back(n: int)
    ensures
        0 <= n <= u64::MAX ==> size_field(decimal_int(n)) == Some(Some(n)),
        n < 0 ==> size_field(decimal_int(n)) is None,
        n > u64::MAX ==> size_field(decimal_int(n)) is None,
        i64::MIN <= n <= i64::MAX ==> time_field(decimal_int(n)) == Some(Some(n)),
{
    let text = decimal_int(n);
    decimal_int_reads_back(n);
    if n >= 0 {
        decimal_reads_back(n as nat);
        lemma_digits_are_seen(text);
    } else {
        let digits = decimal((-n) as nat);
        decimal_reads_back((-n) as nat);
        lemma_digits_are_seen(digits);
        assert(text[0] == '-');
        assert(text.last() == digits.last());
        assert(!is_digit(text[0]));
        assert(without_sign(text, false) == text);
        assert(!all_digits(text));
    }
    white_space_around_does_not_count(Seq::empty(), text, Seq::empty());
    assert(Seq::<char>::empty() + text + Seq::<char>::empty() =~= text);
}

/// A date is read as the second at which its day begins: as many days after the start of 1970 as the
/// calendar counts. Digits before it, such as a zero, do not matter; a day that no month has is none.
pub proof fn a_date_is_read_as_its_first_second(year: Seq<char>, month: Seq<char>, day: Seq<char>)
    requires
        year.len() > 0 && all_digits(year),
        month.len() > 0 && all_digits(month),
        day.len() > 0 && all_digits(day),
        digits_value(year) <= i32::MAX,
    ensures
        ({
            let text = year + seq!['-'] + (month + seq!['-'] + day);
            let y = digits_value(year) as int;
            let m = digits_value(month) as int;
            let d = digits_value(day) as int;
            &&& is_date(y, m, d) ==> date_seconds(text) == Some(86_400 * day_number(y, m, d))
            &&& is_date(y, m, d) ==> time_field(text) == Some(Some(86_400 * day_number(y, m, d)))
            &&& !is_date(y, m, d) ==> date_seconds(text) is None
            &&& !is_date(y, m, d) ==> time_field(text) is None
        }),
{
    let later = month + seq!['-'] + day;
    let text = year + seq!['-'] + later;
    lemma_digits_are_seen(year);
    lemma_digits_are_seen(month);
    lemma_digits_are_seen(day);
    a_text_is_split_at_each_place(year, '-', later);
    a_text_is_split_at_each_place(month, '-', day);
    a_text_is_split_at_each_place(day, '-', Seq::empty());
    assert(split_by(text, '-') =~= seq![year, month, day]);
    assert(text[0] == year[0]);
    assert(text.last() == day.last());
    assert(is_digit(year[0]));
    assert(text[year.len() as int] == '-');
    assert(without_sign(text, true) == text);
    assert(!is_digit('-'));
    assert(!all_digits(text));
    assert(spelled(text, true) is None);
    white_space_around_does_not_count(Seq::empty(), text, Seq::empty());
    assert(Seq::<char>::empty() + text + Seq::<char>::empty() =~= text);
    trimming_leaves_the_text(Seq::empty(), text, Seq::empty());
}

/// Each bound of the filter is the number in the field of its name, and no bound where that field
/// is empty.
pub proof fn each_field_sets_its_own_bound(filter: QueryFilter, inputs: InputsView, n: u64, t: i64)
    requires
        asks_for(filter, inputs),
    ensures
        inputs.min_size == decimal_int(n as int) ==> filter.min_size == Some(n),
        inputs.max_size == decimal_int(n as int) ==> filter.max_size == Some(n),
        inputs.min_allocated == decimal_int(n as int) ==> filter.min_allocated == Some(n),
        inputs.max_allocated == decimal_int(n as int) ==> filter.max_allocated == Some(n),
        inputs.modified_after == decimal_int(t as int) ==> filter.modified_after == Some(t),
        inputs.modified_before == decimal_int(t as int) ==> filter.modified_before == Some(t),
        all_white(inputs.min_size) ==> filter.min_size is None,
        all_white(inputs.max_size) ==> filter.max_size is None,
        all_white(inputs.min_allocated) ==> filter.min_allocated is None,
        all_white(inputs.max_allocated) ==> filter.max_allocated is None,
        all_white(inputs.modified_after) ==> filter.modified_after is None,
        all_white(inputs.modified_before) ==> filter.modified_before is None,
        all_white(inputs.extension) ==> filter.extension is None,
        filter.include_directories == inputs.include_directories,
{
    a_written_number_is_read_back(n as int);
    a_written_number_is_read_back(t as int);
    if all_white(inputs.min_size) {
        an_empty_field_asks_for_nothing(inputs.min_size);
    }
    if all_white(inputs.max_size) {
        an_empty_field_asks_for_nothing(inputs.max_size);
    }
    if all_white(inputs.min_allocated) {
        an_empty_field_asks_for_nothing(inputs.min_allocated);
    }
    if all_white(inputs.max_allocated) {
        an_empty_field_asks_for_nothing(inputs.max_allocated);
    }
    if all_white(inputs.modified_after) {
        an_empty_field_asks_for_nothing(inputs.modified_after);
    }
    if all_white(inputs.modified_before) {
        an_empty_field_asks_for_nothing(inputs.modified_before);
    }
    if all_white(inputs.extension) {
        an_empty_field_asks_for_nothing(inputs.extension);
    }
}

/// The extension that is asked for is the one that was typed, without the white space around it.
pub proof fn a_typed_extension_is_asked_for(
    filter: QueryFilter,
    inputs: InputsView,
    before: Seq<char>,
    text: Seq<char>,
    after: Seq<char>,
)
    requires
        asks_for(filter, inputs),
        inputs.extension == before + text + after,
        all_white(before),
        all_white(after),
        text.len() > 0,
        !is_white_space_spec(text[0]),
        !is_white_space_spec(text.last()),
    ensures
        filter.extension matches Some(wanted) && wanted@ == text,
{
    white_space_around_does_not_count(before, text, after);
}

/// Nothing is said of the fields where each can be read, and something where one cannot: what is said
/// starts with the name of such a field.
pub proof fn what_cannot_be_read_is_named(inputs: InputsView)
    ensures
        first_complaint(inputs) is None <==> size_field(inputs.min_size) is Some && size_field(
            inputs.max_size,
        ) is Some && size_field(inputs.min_allocated) is Some && size_field(inputs.max_allocated) is Some
            && time_field(inputs.modified_after) is Some && time_field(
            inputs.modified_before,
        ) is Some,
        first_complaint(inputs) matches Some(said) ==> {
            ||| "Min size"@.is_prefix_of(said) && size_field(inputs.min_size) is None
            ||| "Max size"@.is_prefix_of(said) && size_field(inputs.max_size) is None
            ||| "Min allocated"@.is_prefix_of(said) && size_field(inputs.min_allocated) is None
            ||| "Max allocated"@.is_prefix_of(said) && size_field(inputs.max_allocated) is None
            ||| "Modified after"@.is_prefix_of(said) && time_field(inputs.modified_after) is None
            ||| "Modified before"@.is_prefix_of(said) && time_field(inputs.modified_before) is None
        },
{
}

} // verus!
