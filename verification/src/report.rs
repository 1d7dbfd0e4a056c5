//! What is told to a person: counts and sizes, and what became of a pass over a corpus.

use crate::corpus::DocStore;
use crate::index::{Index, IndexStats};
use crate::text;
use vstd::prelude::*;
use vstd::string::*;

verus! {

/// A text of at most `limit` characters, or the start of a longer one with an ellipsis,
/// which takes one of them. Where there is no room for that either, nothing is left.
pub open spec fn truncated(chars: Seq<char>, limit: nat) -> Seq<char> {
    if chars.len() <= limit {
        chars
    } else if limit == 0 {
        seq![]
    } else {
        chars.take(limit - 1).push('\u{2026}')
    }
}

/// Shortens `text` to at most `limit` characters, adding an ellipsis.
///
/// Counts characters rather than bytes, since a cut at a byte can land inside a
/// character.
pub fn truncate(text: &str, limit: usize) -> (shortened: String)
    ensures
        shortened@ == truncated(text@, limit as nat),
        shortened@.len() <= limit,
{
    if text.unicode_len() <= limit {
        return text.to_owned();
    }
    if limit == 0 {
        return String::new();
    }
    let keep: usize = limit - 1;
    let mut shortened = String::new();
    let mut kept: usize = 0;
    proof {
        assert(text@.take(0) =~= Seq::<char>::empty());
        text::lemma_byte_at(text@, 0);
    }
    let mut offset: usize = 0;
    while kept < keep
        invariant
            kept <= keep < text@.len(),
            offset == text::byte_at(text@, kept as int),
            shortened@ == text@.take(kept as int),
        decreases keep - kept,
    {
        proof {
            text::lemma_byte_at_step(text@, kept as int);
        }
        let size: usize = text::length_of(text);
        let character = text::char_at(text, offset, Ghost(kept as int));
        shortened.push(character);
        offset += text::width_of(character);
        kept += 1;
        proof {
            assert(shortened@ =~= text@.take(kept as int));
        }
    }
    shortened.push('\u{2026}');
    proof {
        assert(shortened@ =~= truncated(text@, limit as nat));
    }
    shortened
}

/// Shortening keeps to its limit and takes no more than it must: what fits is left as it
/// is, and of what does not all characters but one stay, from the first on, with an ellipsis
/// behind them.
pub proof fn shortening_takes_no_more_than_it_must(chars: Seq<char>, limit: nat)
    ensures
        truncated(chars, limit).len() <= limit,
        chars.len() <= limit ==> truncated(chars, limit) == chars,
        chars.len() > limit > 0 ==> truncated(chars, limit).len() == limit && truncated(
            chars,
            limit,
        ).last() == '\u{2026}' && truncated(chars, limit).drop_last().is_prefix_of(chars),
{
}

/// The three digits of a number below a thousand.
pub open spec fn three_digits(value: nat) -> Seq<char> {
    seq![
        text::digit(value / 100 % 10),
        text::digit(value / 10 % 10),
        text::digit(value % 10),
    ]
}

/// A number in decimal, with a comma before every three digits.
pub open spec fn grouped(value: nat) -> Seq<char>
    decreases value,
{
    if value < 1000 {
        text::decimal(value)
    } else {
        grouped(value / 1000) + seq![','] + three_digits(value % 1000)
    }
}

/// A number is written by its digits: the last one is the number modulo ten, and those
/// before it are those of the number divided by ten, none of them where that is zero.
pub proof fn a_number_is_written_by_its_digits(value: nat, unit: nat)
    requires
        unit < 10,
    ensures
        text::decimal(unit) == seq![(48 + unit) as char],
        value > 0 ==> text::decimal(10 * value + unit) == text::decimal(value).push(
            (48 + unit) as char,
        ),
{
    let whole = 10 * value + unit;
    assert(whole / 10 == value && whole % 10 == unit);
}

proof fn lemma_digits(value: nat)
    ensures
        text::decimal(value).len() > 0,
        forall|i: int|
            0 <= i < text::decimal(value).len() ==> '0' <= #[trigger] text::decimal(value)[i]
                <= '9',
    decreases value,
{
    let all = text::decimal(value);
    if value >= 10 {
        lemma_digits(value / 10);
        assert forall|i: int| 0 <= i < all.len() implies '0' <= #[trigger] all[i] <= '9' by {
            if i < all.len() - 1 {
                assert(all[i] == text::decimal(value / 10)[i]);
            }
        }
    }
}

proof fn lemma_last_three(value: nat)
    requires
        value >= 1000,
    ensures
        text::decimal(value) == text::decimal(value / 1000) + three_digits(value % 1000),
{
    let a = value / 10;
    let b = value / 100;
    let c = value / 1000;
    assert(a / 10 == b && b / 10 == c);
    assert(a >= 10 && b >= 10);
    let rest = value % 1000;
    assert(rest / 100 % 10 == b % 10);
    assert(rest / 10 % 10 == a % 10);
    assert(rest % 10 == value % 10);
    assert(text::decimal(value) == text::decimal(a).push(text::digit(value % 10)));
    assert(text::decimal(a) == text::decimal(b).push(text::digit(a % 10)));
    assert(text::decimal(b) == text::decimal(c).push(text::digit(b % 10)));
    assert(text::decimal(value) =~= text::decimal(c) + three_digits(rest));
}

/// Where the commas of a grouped number are.
proof fn lemma_commas(value: nat)
    ensures
        forall|i: int|
            0 <= i < grouped(value).len() ==> (#[trigger] grouped(value)[i] == ',' <==> (
            grouped(value).len() - i) % 4 == 0),
        grouped(value).len() > 0 && grouped(value)[0] != ',',
    decreases value,
{
    let shown = grouped(value);
    lemma_digits(value);
    if value < 1000 {
        lemma_short(value);
    } else {
        let head = grouped(value / 1000);
        let rest = seq![','] + three_digits(value % 1000);
        lemma_commas(value / 1000);
        assert(shown =~= head + rest);
        assert forall|i: int| 0 <= i < shown.len() implies (#[trigger] shown[i] == ',' <==> (
        shown.len() - i) % 4 == 0) by {
            if i < head.len() {
                assert(shown[i] == head[i]);
                assert(shown.len() - i == (head.len() - i) + 4);
            } else {
                assert(shown[i] == rest[i - head.len()]);
            }
        }
        assert(shown[0] == head[0]);
    }
}

/// What is left of a grouped number without its commas.
proof fn lemma_without_commas(value: nat)
    ensures
        grouped(value).filter(|c: char| c != ',') == text::decimal(value),
    decreases value,
{
    let is_digit = |c: char| c != ',';
    lemma_digits(value);
    if value < 1000 {
        lemma_nothing_filtered(grouped(value));
    } else {
        let head = grouped(value / 1000);
        let tail = three_digits(value % 1000);
        lemma_without_commas(value / 1000);
        lemma_last_three(value);
        assert(seq![','].filter(is_digit) =~= Seq::<char>::empty()) by {
            let comma = seq![','];
            reveal_with_fuel(Seq::filter, 2);
            assert(comma.drop_last() =~= Seq::<char>::empty());
            assert(comma.last() == ',');
            assert(comma.filter(is_digit) == comma.drop_last().filter(is_digit));
        }
        Seq::filter_distributes_over_add(head, seq![','], is_digit);
        Seq::filter_distributes_over_add(head + seq![','], tail, is_digit);
        lemma_nothing_filtered(tail);
        assert(head.filter(is_digit) + Seq::<char>::empty() + tail =~= head.filter(is_digit) + tail);
    }
}

/// Grouping changes no digit: without its commas a grouped number is the number in decimal.
/// Every fourth character from the end is a comma, and no other is.
pub proof fn grouping_puts_a_comma_before_every_three_digits(value: nat)
    ensures
        grouped(value).filter(|c: char| c != ',') == text::decimal(value),
        forall|i: int|
            0 <= i < grouped(value).len() ==> (#[trigger] grouped(value)[i] == ',' <==> (
            grouped(value).len() - i) % 4 == 0),
        grouped(value).len() > 0 && grouped(value)[0] != ',',
{
    lemma_commas(value);
    lemma_without_commas(value);
}

proof fn lemma_short(value: nat)
    requires
        value < 1000,
    ensures
        text::decimal(value).len() <= 3,
{
    reveal_with_fuel(text::decimal, 4);
}

proof fn lemma_nothing_filtered(chars: Seq<char>)
    requires
        forall|i: int| 0 <= i < chars.len() ==> #[trigger] chars[i] != ',',
    ensures
        chars.filter(|c: char| c != ',') == chars,
    decreases chars.len(),
{
    reveal(Seq::filter);
    if chars.len() > 0 {
        lemma_nothing_filtered(chars.drop_last());
        assert(chars[chars.len() - 1] != ',');
        assert(chars.filter(|c: char| c != ',') =~= chars);
    }
}

/// Appends a number with thousands separators.
fn push_grouped(out: &mut String, value: u64)
    ensures
        final(out)@ == old(out)@ + grouped(value as nat),
    decreases value,
{
    if value < 1000 {
        text::push_decimal(out, value);
    } else {
        push_grouped(out, value / 1000);
        let rest: u64 = value % 1000;
        out.push(',');
        out.push((48 + (rest / 100 % 10) as u8) as char);
        out.push((48 + (rest / 10 % 10) as u8) as char);
        out.push((48 + (rest % 10) as u8) as char);
        proof {
            assert(out@ =~= old(out)@ + grouped(value as nat));
        }
    }
}

/// Formats a large count with thousands separators.
pub fn format_count(count: u64) -> (shown: String)
    ensures
        shown@ == grouped(count as nat),
{
    let mut shown = String::new();
    push_grouped(&mut shown, count);
    proof {
        assert(shown@ =~= grouped(count as nat));
    }
    shown
}

/// The power of two that a number is rounded to where it keeps 53 significant bits.
pub open spec fn rounding_step(value: nat) -> nat
    decreases value,
{
    if value < 0x20_0000_0000_0000 {
        1
    } else {
        2 * rounding_step(value / 2)
    }
}

/// `numerator / denominator` as a whole number, halves going to the even one.
pub open spec fn rounded(numerator: nat, denominator: nat) -> nat {
    let quotient = numerator / denominator;
    let rest = numerator % denominator;
    if 2 * rest > denominator || (2 * rest == denominator && quotient % 2 == 1) {
        quotient + 1
    } else {
        quotient
    }
}

/// A number kept to 53 significant bits.
pub open spec fn to_53_bits(value: nat) -> nat {
    rounded(value, rounding_step(value)) * rounding_step(value)
}

/// 1024 times itself.
pub open spec fn unit_size(unit: nat) -> nat
    decreases unit,
{
    if unit == 0 {
        1
    } else {
        1024 * unit_size((unit - 1) as nat)
    }
}

/// The largest unit that a size reaches, up to tebibytes.
pub open spec fn unit_for(value: nat) -> nat {
    if value < unit_size(1) {
        0
    } else if value < unit_size(2) {
        1
    } else if value < unit_size(3) {
        2
    } else if value < unit_size(4) {
        3
    } else {
        4
    }
}

pub open spec fn unit_name(unit: nat) -> Seq<char> {
    if unit == 0 {
        "B"@
    } else if unit == 1 {
        "KiB"@
    } else if unit == 2 {
        "MiB"@
    } else if unit == 3 {
        "GiB"@
    } else {
        "TiB"@
    }
}

/// A size in the largest binary unit that it reaches, with one decimal.
pub open spec fn shown_bytes(bytes: nat) -> Seq<char> {
    let value = to_53_bits(bytes);
    let unit = unit_for(value);
    if unit == 0 {
        text::decimal(bytes) + " "@ + unit_name(0)
    } else {
        let tenths = rounded(value * 10, unit_size(unit));
        text::decimal(tenths / 10) + "."@ + text::decimal(tenths % 10) + " "@ + unit_name(unit)
    }
}

proof fn lemma_rounded(numerator: nat, denominator: nat)
    requires
        denominator > 0,
    ensures
        2 * (rounded(numerator, denominator) * denominator - numerator) <= denominator,
        2 * (numerator - rounded(numerator, denominator) * denominator) <= denominator,
{
    let quotient = numerator / denominator;
    let rest = numerator % denominator;
    assert(numerator == quotient * denominator + rest && rest < denominator) by (nonlinear_arith)
        requires
            denominator > 0,
            quotient == numerator / denominator,
            rest == numerator % denominator,
    ;
    assert((quotient + 1) * denominator == quotient * denominator + denominator)
        by (nonlinear_arith);
}

/// A size below 2 to the 53 is shown in bytes below 1024, and else in the largest of
/// kibibytes, mebibytes, gibibytes and tebibytes that it reaches, to the nearest tenth: what
/// is shown is off by no more than half a tenth of the unit.
pub proof fn a_size_is_shown_to_the_nearest_tenth(bytes: nat) -> (tenths: nat)
    requires
        bytes < 0x20_0000_0000_0000,
    ensures
        bytes < 1024 ==> shown_bytes(bytes) == text::decimal(bytes) + " B"@,
        bytes >= 1024 ==> {
            let (size, name): (nat, Seq<char>) = if bytes < 0x10_0000 {
                (0x400, " KiB"@)
            } else if bytes < 0x4000_0000 {
                (0x10_0000, " MiB"@)
            } else if bytes < 0x100_0000_0000 {
                (0x4000_0000, " GiB"@)
            } else {
                (0x100_0000_0000, " TiB"@)
            };
            &&& shown_bytes(bytes) == text::decimal(tenths / 10) + "."@ + text::decimal(tenths % 10)
                + name
            &&& 2 * (tenths * size - 10 * bytes) <= size
            &&& 2 * (10 * bytes - tenths * size) <= size
        },
{
    reveal_with_fuel(unit_size, 6);
    reveal_strlit("B");
    reveal_strlit("KiB");
    reveal_strlit("MiB");
    reveal_strlit("GiB");
    reveal_strlit("TiB");
    reveal_strlit(" ");
    reveal_strlit(" B");
    reveal_strlit(" KiB");
    reveal_strlit(" MiB");
    reveal_strlit(" GiB");
    reveal_strlit(" TiB");
    assert(rounding_step(bytes) == 1);
    assert(rounded(bytes, 1) == bytes);
    assert(to_53_bits(bytes) == bytes);
    if bytes < 1024 {
        assert(" "@ + "B"@ =~= " B"@);
        assert(shown_bytes(bytes) =~= text::decimal(bytes) + " B"@);
        0
    } else {
        let unit = unit_for(bytes);
        let tenths = rounded(bytes * 10, unit_size(unit));
        lemma_rounded(bytes * 10, unit_size(unit));
        assert(" "@ + "KiB"@ =~= " KiB"@);
        assert(" "@ + "MiB"@ =~= " MiB"@);
        assert(" "@ + "GiB"@ =~= " GiB"@);
        assert(" "@ + "TiB"@ =~= " TiB"@);
        assert(shown_bytes(bytes) =~= text::decimal(tenths / 10) + "."@ + text::decimal(tenths % 10)
            + (" "@ + unit_name(unit)));
        tenths
    }
}

fn round(numerator: u128, denominator: u128) -> (whole: u128)
    requires
        0 < denominator <= u64::MAX,
        numerator <= u64::MAX * 20,
    ensures
        whole == rounded(numerator as nat, denominator as nat),
        whole <= numerator / denominator + 1,
{
    let quotient: u128 = numerator / denominator;
    let rest: u128 = numerator % denominator;
    if 2 * rest > denominator || (2 * rest == denominator && quotient % 2 == 1) {
        quotient + 1
    } else {
        quotient
    }
}

proof fn lemma_rounding_step(value: nat)
    requires
        value <= u64::MAX,
    ensures
        1 <= rounding_step(value) <= 2048,
        to_53_bits(value) <= value + rounding_step(value),
{
    reveal_with_fuel(rounding_step, 13);
    let step = rounding_step(value);
    assert(1 <= step <= 2048);
    let quotient = value / step;
    assert(quotient * step <= value && (quotient + 1) * step <= value + step)
        by (nonlinear_arith)
        requires
            quotient == value / step,
            step >= 1,
    ;
}

/// Formats a byte count in binary units.
pub fn format_bytes(bytes: u64) -> (shown: String)
    ensures
        shown@ == shown_bytes(bytes as nat),
{
    proof {
        lemma_rounding_step(bytes as nat);
        reveal_with_fuel(unit_size, 6);
    }
    let mut step: u64 = 1;
    let mut left: u64 = bytes;
    while left >= 0x20_0000_0000_0000
        invariant
            step * rounding_step(left as nat) == rounding_step(bytes as nat),
            rounding_step(bytes as nat) <= 2048,
            rounding_step(left as nat) >= 1,
            1 <= step,
        decreases left,
    {
        proof {
            let inner = rounding_step((left / 2) as nat);
            lemma_rounding_step((left / 2) as nat);
            assert(step * (2 * inner) == (step * 2) * inner) by (nonlinear_arith);
            assert(step * 2 <= (step * 2) * inner) by (nonlinear_arith)
                requires
                    inner >= 1,
            ;
        }
        left = left / 2;
        step = step * 2;
    }
    proof {
        assert(step == rounding_step(bytes as nat)) by (nonlinear_arith)
            requires
                step * rounding_step(left as nat) == rounding_step(bytes as nat),
                rounding_step(left as nat) == 1,
        ;
    }
    let times: u128 = round(bytes as u128, step as u128);
    proof {
        assert(times * step == to_53_bits(bytes as nat));
    }
    let value: u128 = times * step as u128;
    let mut shown = String::new();
    if value < 1024 {
        text::push_decimal(&mut shown, bytes);
        shown.append(" ");
        shown.append("B");
        proof {
            assert(shown@ =~= shown_bytes(bytes as nat));
        }
        return shown;
    }
    let (size, name): (u64, &str) = if value < 0x10_0000 {
        (0x400, "KiB")
    } else if value < 0x4000_0000 {
        (0x10_0000, "MiB")
    } else if value < 0x100_0000_0000 {
        (0x4000_0000, "GiB")
    } else {
        (0x100_0000_0000, "TiB")
    };
    let tenths: u64 = round(value * 10, size as u128) as u64;
    text::push_decimal(&mut shown, tenths / 10);
    shown.append(".");
    text::push_decimal(&mut shown, tenths % 10);
    shown.append(" ");
    shown.append(name);
    proof {
        assert(shown@ =~= shown_bytes(bytes as nat));
    }
    shown
}

/// How many malformed records to name before falling silent. A corrupt file should not
/// produce millions of lines of warnings.
pub const MAX_REPORTED_MALFORMED: usize = 5;

/// What to say of a record that could not be used.
#[derive(Debug, Clone, Copy, PartialEq, Eq)]
pub enum Notice {
    /// Name it.
    Warn,
    /// Say that no more will be named.
    WarnOfMore,
    /// Nothing.
    Silent,
}

/// What to say of a record that could not be used, `before` of which came before it, in a
/// pass that reports them or does not.
pub open spec fn notice_for(reports: bool, before: nat) -> Notice {
    if !reports {
        Notice::Silent
    } else if before < MAX_REPORTED_MALFORMED {
        Notice::Warn
    } else if before == MAX_REPORTED_MALFORMED {
        Notice::WarnOfMore
    } else {
        Notice::Silent
    }
}

/// Of however many records that could not be used, the first five are named, the sixth is
/// said to be the last that is mentioned, and nothing is said of the others. A pass that
/// does not report says nothing of any.
pub proof fn five_unusable_records_are_named(before: nat)
    ensures
        before < 5 ==> notice_for(true, before) == Notice::Warn,
        before == 5 ==> notice_for(true, before) == Notice::WarnOfMore,
        before > 5 ==> notice_for(true, before) == Notice::Silent,
        notice_for(false, before) == Notice::Silent,
{
}

/// One pass over a corpus: how many documents it may use, and what it has seen.
#[derive(Debug, Clone, Copy, PartialEq, Eq)]
pub struct Pass {
    limit: usize,
    report_problems: bool,
    documents: usize,
    malformed: usize,
}

impl Pass {
    /// How many documents it may use.
    pub closed spec fn limit(self) -> usize {
        self.limit
    }

    /// Whether it says anything of records that could not be used.
    pub closed spec fn reports(self) -> bool {
        self.report_problems
    }

    /// How many documents it has used.
    pub closed spec fn used(self) -> usize {
        self.documents
    }

    /// How many records it could not use.
    pub closed spec fn unusable(self) -> usize {
        self.malformed
    }

    /// A pass at its beginning. Without a limit it uses every document.
    pub fn new(limit: Option<usize>, report_problems: bool) -> (pass: Pass)
        ensures
            pass.limit() == (match limit {
                Some(limit) => limit,
                None => usize::MAX,
            }),
            pass.reports() == report_problems,
            pass.used() == 0,
            pass.unusable() == 0,
    {
        let limit: usize = match limit {
            Some(limit) => limit,
            None => usize::MAX,
        };
        Pass { limit, report_problems, documents: 0, malformed: 0 }
    }

    /// Whether to read on. The limit is on documents, not on lines.
    pub fn wants_more(&self) -> (more: bool)
        ensures
            more == (self.used() < self.limit()),
    {
        self.documents < self.limit
    }

    /// Counts a document that was used.
    pub fn document_used(&mut self)
        requires
            old(self).used() < old(self).limit(),
        ensures
            final(self).used() == old(self).used() + 1,
            final(self).limit() == old(self).limit(),
            final(self).reports() == old(self).reports(),
            final(self).unusable() == old(self).unusable(),
    {
        self.documents = self.documents + 1;
    }

    /// Counts a record that could not be used and says what to tell of it: the first
    /// few are named, the next is said to be the last that is mentioned.
    pub fn record_unusable(&mut self) -> (notice: Notice)
        requires
            old(self).unusable() < usize::MAX,
        ensures
            final(self).unusable() == old(self).unusable() + 1,
            final(self).used() == old(self).used(),
            final(self).limit() == old(self).limit(),
            final(self).reports() == old(self).reports(),
            notice == notice_for(old(self).reports(), old(self).unusable() as nat),
    {
        self.malformed = self.malformed + 1;
        if self.report_problems && self.malformed <= MAX_REPORTED_MALFORMED {
            Notice::Warn
        } else if self.report_problems && self.malformed == MAX_REPORTED_MALFORMED + 1 {
            Notice::WarnOfMore
        } else {
            Notice::Silent
        }
    }

    /// How many documents were used.
    pub fn documents(&self) -> (count: usize)
        ensures
            count == self.used(),
    {
        self.documents
    }

    /// How many records could not be used.
    pub fn malformed(&self) -> (count: usize)
        ensures
            count == self.unusable(),
    {
        self.malformed
    }
}

/// What a built index is told of: measured times and rates come already rounded.
#[derive(Debug)]
pub struct BuildReport {
    /// The corpus file.
    pub input: String,
    /// What the index holds.
    pub stats: IndexStats,
    /// How many bytes of the corpus were read.
    pub scanned: u64,
    /// The index's share of those, in percent.
    pub share: String,
    /// How long building took.
    pub elapsed: String,
    /// How long the counting pass took.
    pub counting: String,
    /// How long the filling pass took.
    pub filling: String,
    /// Documents per second.
    pub documents_per_second: u64,
    /// Positions per second.
    pub positions_per_second: u64,
    /// How many records could not be used.
    pub malformed: usize,
}

impl BuildReport {
    /// The report, line by line.
    pub open spec fn report(self) -> Seq<Seq<char>> {
        seq![
            "indexed "@ + text::decimal(self.stats.documents as nat) + " documents from "@
                + self.input@,
            "  terms:        "@ + grouped(self.stats.terms as nat),
            "  postings:     "@ + grouped(self.stats.postings as nat),
            "  positions:    "@ + grouped(self.stats.positions as nat),
            "  index size:   "@ + shown_bytes(self.stats.bytes as nat),
            "  vs corpus:    "@ + self.share@ + "% of "@ + shown_bytes(self.scanned as nat)
                + " scanned"@,
            "  build time:   "@ + self.elapsed@ + " ("@ + self.counting@ + " counting, "@
                + self.filling@ + " filling)"@,
            "  rate:         "@ + grouped(self.documents_per_second as nat) + " docs/s, "@
                + grouped(self.positions_per_second as nat) + " positions/s"@,
        ] + if self.malformed > 0 {
            seq![
                "  malformed:    "@ + text::decimal(self.malformed as nat)
                    + " record(s) skipped"@,
            ]
        } else {
            seq![]
        }
    }

    /// The report, line by line.
    pub fn lines(&self) -> (lines: Vec<String>)
        ensures
            lines@.map_values(|line: String| line@) == self.report(),
    {
        let mut lines: Vec<String> = Vec::new();
        let mut line = String::new();
        line.append("indexed ");
        text::push_decimal(&mut line, self.stats.documents as u64);
        line.append(" documents from ");
        line.append(self.input.as_str());
        proof {
            assert(line@ =~= self.report()[0]);
        }
        lines.push(line);
        lines.push(labelled("  terms:        ", format_count(self.stats.terms as u64)));
        lines.push(labelled("  postings:     ", format_count(self.stats.postings as u64)));
        lines.push(labelled("  positions:    ", format_count(self.stats.positions as u64)));
        lines.push(labelled("  index size:   ", format_bytes(self.stats.bytes as u64)));
        let mut line = String::new();
        line.append("  vs corpus:    ");
        line.append(self.share.as_str());
        line.append("% of ");
        line.append(format_bytes(self.scanned).as_str());
        line.append(" scanned");
        proof {
            assert(line@ =~= self.report()[5]);
        }
        lines.push(line);
        let mut line = String::new();
        line.append("  build time:   ");
        line.append(self.elapsed.as_str());
        line.append(" (");
        line.append(self.counting.as_str());
        line.append(" counting, ");
        line.append(self.filling.as_str());
        line.append(" filling)");
        proof {
            assert(line@ =~= self.report()[6]);
        }
        lines.push(line);
        let mut line = String::new();
        line.append("  rate:         ");
        push_grouped(&mut line, self.documents_per_second);
        line.append(" docs/s, ");
        push_grouped(&mut line, self.positions_per_second);
        line.append(" positions/s");
        proof {
            assert(line@ =~= self.report()[7]);
        }
        lines.push(line);
        if self.malformed > 0 {
            let mut line = String::new();
            line.append("  malformed:    ");
            text::push_decimal(&mut line, self.malformed as u64);
            line.append(" record(s) skipped");
            proof {
                assert(line@ =~= self.report()[8]);
            }
            lines.push(line);
        }
        proof {
            assert(lines@.map_values(|line: String| line@) =~= self.report());
        }
        lines
    }
}

/// The report says every figure, each on the line with its name, behind sixteen characters:
/// what is shown of a count is the count, whatever it is.
pub proof fn a_report_shows_every_figure(told: BuildReport)
    ensures
        ({
            let lines = told.report();
            let behind = |k: int| lines[k].skip(16);
            &&& lines.len() == if told.malformed == 0 {
                8nat
            } else {
                9nat
            }
            &&& lines[0] == "indexed "@ + text::decimal(told.stats.documents as nat)
                + " documents from "@ + told.input@
            &&& behind(1) == grouped(told.stats.terms as nat)
            &&& behind(2) == grouped(told.stats.postings as nat)
            &&& behind(3) == grouped(told.stats.positions as nat)
            &&& behind(4) == shown_bytes(told.stats.bytes as nat)
            &&& behind(5) == told.share@ + "% of "@ + shown_bytes(told.scanned as nat)
                + " scanned"@
            &&& behind(6) == told.elapsed@ + " ("@ + told.counting@ + " counting, "@
                + told.filling@ + " filling)"@
            &&& behind(7) == grouped(told.documents_per_second as nat) + " docs/s, "@ + grouped(
                told.positions_per_second as nat,
            ) + " positions/s"@
            &&& told.malformed > 0 ==> behind(8) == text::decimal(told.malformed as nat)
                + " record(s) skipped"@
        }),
{
    reveal_strlit("  terms:        ");
    reveal_strlit("  postings:     ");
    reveal_strlit("  positions:    ");
    reveal_strlit("  index size:   ");
    reveal_strlit("  vs corpus:    ");
    reveal_strlit("  build time:   ");
    reveal_strlit("  rate:         ");
    reveal_strlit("  malformed:    ");
    let lines = told.report();
    assert(lines[1].skip(16) =~= grouped(told.stats.terms as nat));
    assert(lines[2].skip(16) =~= grouped(told.stats.postings as nat));
    assert(lines[3].skip(16) =~= grouped(told.stats.positions as nat));
    assert(lines[4].skip(16) =~= shown_bytes(told.stats.bytes as nat));
    assert(lines[5].skip(16) =~= told.share@ + "% of "@ + shown_bytes(told.scanned as nat)
        + " scanned"@);
    assert(lines[6].skip(16) =~= told.elapsed@ + " ("@ + told.counting@ + " counting, "@
        + told.filling@ + " filling)"@);
    assert(lines[7].skip(16) =~= grouped(told.documents_per_second as nat) + " docs/s, "@ + grouped(
        told.positions_per_second as nat,
    ) + " positions/s"@);
    if told.malformed > 0 {
        assert(lines[8].skip(16) =~= text::decimal(told.malformed as nat) + " record(s) skipped"@);
    }
}

/// `label` and then `value`.
fn labelled(label: &str, value: String) -> (line: String)
    ensures
        line@ == label@ + value@,
{
    let mut line = label.to_owned();
    line.append(value.as_str());
    line
}

/// Numbers between brackets, with a comma and a space between them.
pub open spec fn bracketed(numbers: Seq<u32>) -> Seq<char> {
    "["@ + listed(numbers) + "]"@
}

pub open spec fn listed(numbers: Seq<u32>) -> Seq<char>
    decreases numbers.len(),
{
    if numbers.len() == 0 {
        seq![]
    } else if numbers.len() == 1 {
        text::decimal(numbers[0] as nat)
    } else {
        listed(numbers.drop_last()) + ", "@ + text::decimal(numbers.last() as nat)
    }
}

fn push_bracketed(out: &mut String, numbers: &[u32], count: usize)
    requires
        count <= numbers@.len(),
    ensures
        final(out)@ == old(out)@ + bracketed(numbers@.take(count as int)),
{
    let ghost all = numbers@.take(count as int);
    out.append("[");
    let ghost before = out@;
    let mut index: usize = 0;
    proof {
        assert(all.take(0) =~= Seq::<u32>::empty());
        assert(before + listed(all.take(0)) =~= before);
    }
    while index < count
        invariant
            index <= count <= numbers@.len(),
            all == numbers@.take(count as int),
            out@ == before + listed(all.take(index as int)),
        decreases count - index,
    {
        proof {
            assert(all.take(index + 1).drop_last() =~= all.take(index as int));
            assert(all.take(index + 1).last() == numbers@[index as int]);
        }
        if index > 0 {
            out.append(", ");
        }
        text::push_decimal(out, numbers[index] as u64);
        index += 1;
        proof {
            assert(out@ =~= before + listed(all.take(index as int)));
        }
    }
    out.append("]");
    proof {
        assert(all.take(index as int) =~= all);
        assert(out@ =~= old(out)@ + bracketed(all));
    }
}

/// How many positions of an example are shown.
pub const SHOWN_POSITIONS: usize = 4;

/// How many characters of an example's title are shown.
pub const SHOWN_TITLE: usize = 66;

/// The first few of some positions.
pub open spec fn first_positions(positions: Seq<u32>) -> Seq<u32> {
    if positions.len() <= SHOWN_POSITIONS {
        positions
    } else {
        positions.take(SHOWN_POSITIONS as int)
    }
}

/// What is told of a term as an example: in how many documents it occurs, in which one
/// first and where, and that document's title, if it has one.
pub open spec fn example_lines(
    index: crate::postings::IndexView,
    documents: Seq<crate::corpus::DocMetaView>,
    term: Seq<char>,
) -> Seq<Seq<char>> {
    if !index.dictionary.contains_key(term) {
        seq![]
    } else {
        let list = index.postings(index.dictionary[term] as int);
        if list.len() == 0 {
            seq![]
        } else {
            let first = list[0];
            let line = "  \""@ + term + "\":    "@ + grouped(list.len()) + " documents, first is "@
                + "#"@ + text::decimal(first.doc as nat) + " at position(s) "@ + bracketed(
                first_positions(first.positions),
            );
            if first.doc < documents.len() && documents[first.doc as int].title.len() > 0 {
                seq![
                    line,
                    "                "@ + truncated(
                        documents[first.doc as int].title,
                        SHOWN_TITLE as nat,
                    ),
                ]
            } else {
                seq![line]
            }
        }
    }
}

/// An example is short: of more than four positions the first four are shown, and of a
/// title of more than 66 characters the first 65 with an ellipsis. A shorter title is shown
/// whole, behind sixteen spaces.
pub proof fn an_example_is_short(
    index: crate::postings::IndexView,
    documents: Seq<crate::corpus::DocMetaView>,
    term: Seq<char>,
    positions: Seq<u32>,
)
    ensures
        first_positions(positions) == positions.take(
            if positions.len() < 4 {
                positions.len() as int
            } else {
                4
            },
        ),
        index.dictionary.contains_key(term) && index.postings(
            index.dictionary[term] as int,
        ).len() > 0 ==> {
            let lines = example_lines(index, documents, term);
            let first = index.postings(index.dictionary[term] as int)[0].doc as int;
            let title = documents[first].title;
            &&& lines.len() == if first < documents.len() && title.len() > 0 {
                2nat
            } else {
                1nat
            }
            &&& lines.len() == 2 && title.len() <= 66 ==> lines[1] == Seq::new(16, |i: int| ' ')
                + title
            &&& lines.len() == 2 && title.len() > 66 ==> lines[1] == Seq::new(16, |i: int| ' ')
                + title.take(65).push('\u{2026}')
        },
        !index.dictionary.contains_key(term) ==> example_lines(index, documents, term).len() == 0,
{
    reveal_strlit("                ");
    assert("                "@ =~= Seq::new(16, |i: int| ' '));
    assert(first_positions(positions) =~= positions.take(
        if positions.len() < 4 {
            positions.len() as int
        } else {
            4
        },
    ));
}

/// A concrete example of what an index holds, so that its numbers are not the only
/// evidence that it holds anything.
pub fn example(index: &Index, documents: &DocStore, term: &str) -> (lines: Vec<String>)
    ensures
        lines@.map_values(|line: String| line@) == example_lines(index@, documents@, term@),
{
    let mut lines: Vec<String> = Vec::new();
    let ghost told = example_lines(index@, documents@, term@);
    let mut list = match index.postings_for(term) {
        Some(list) => list,
        None => {
            proof {
                assert(lines@.map_values(|line: String| line@) =~= told);
            }
            return lines;
        },
    };
    let count: usize = list.len();
    let first = match list.next() {
        Some(first) => first,
        None => {
            proof {
                assert(lines@.map_values(|line: String| line@) =~= told);
            }
            return lines;
        },
    };
    let mut line = String::new();
    line.append("  \"");
    line.append(term);
    line.append("\":    ");
    push_grouped(&mut line, count as u64);
    line.append(" documents, first is ");
    line.append(first.doc_id.to_string().as_str());
    line.append(" at position(s) ");
    let shown: usize = if first.positions.len() <= SHOWN_POSITIONS {
        first.positions.len()
    } else {
        SHOWN_POSITIONS
    };
    push_bracketed(&mut line, first.positions, shown);
    proof {
        assert(first.positions@.take(shown as int) =~= first_positions(first@.positions));
        assert(line@ =~= told[0]);
    }
    lines.push(line);
    if let Some(meta) = documents.get(first.doc_id) {
        if !meta.title.as_str().is_empty() {
            lines.push(
                labelled("                ", truncate(meta.title.as_str(), SHOWN_TITLE)),
            );
        }
    }
    proof {
        assert(lines@.map_values(|line: String| line@) =~= told);
    }
    lines
}

} // verus!
