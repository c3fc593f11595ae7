//! Measurements of scans.

use vstd::prelude::*;

use crate::numbers::{decimal, decimal_reads_back, digits_value, is_digit, push_decimal, spelled,
    without_sign};
use crate::scan::ScanSummary;
use crate::text::{a_text_is_split_at_each_place, push_text, split_by};

verus! {

/// How long a scan took, and what it found.
#[derive(Debug, Clone, Copy)]
pub struct ScanMeasurement {
    pub iteration: usize,
    pub elapsed_ms: u128,
    pub entries: u64,
    pub files: u64,
    pub directories: u64,
    pub inaccessible: u64,
}

impl ScanMeasurement {
    /// The measurement of one scan.
    #[must_use]
    pub fn new(iteration: usize, elapsed_ms: u128, summary: ScanSummary) -> (r: Self)
        ensures
            r == (ScanMeasurement {
                iteration,
                elapsed_ms,
                entries: summary.entries,
                files: summary.files,
                directories: summary.directories,
                inaccessible: summary.inaccessible,
            }),
    {
        ScanMeasurement {
            iteration,
            elapsed_ms,
            entries: summary.entries,
            files: summary.files,
            directories: summary.directories,
            inaccessible: summary.inaccessible,
        }
    }
}

/// The line of a measurement.
pub open spec fn measurement_line(m: ScanMeasurement) -> Seq<char> {
    decimal(m.iteration as nat).push(',') + decimal(m.elapsed_ms as nat).push(',') + decimal(
        m.entries as nat,
    ).push(',') + decimal(m.files as nat).push(',') + decimal(m.directories as nat).push(',')
        + decimal(m.inaccessible as nat).push('\n')
}

/// The lines of measurements.
pub open spec fn measurement_lines(measurements: Seq<ScanMeasurement>) -> Seq<char>
    decreases measurements.len(),
{
    if measurements.len() == 0 {
        Seq::empty()
    } else {
        measurement_lines(measurements.drop_last()) + measurement_line(measurements.last())
    }
}

/// The names of the columns.
pub open spec fn measurement_header() -> Seq<char> {
    "iteration,elapsed_ms,entries,files,directories,inaccessible\n"@
}

/// Appends the measurements: the names of the columns, and a line for each.
pub fn write_measurements(out: &mut String, measurements: &Vec<ScanMeasurement>)
    ensures
        final(out)@ == old(out)@ + measurement_header() + measurement_lines(measurements@),
{
    let ghost before = out@;
    push_text(out, "iteration,elapsed_ms,entries,files,directories,inaccessible\n");
    let mut i: usize = 0;
    assert(out@ =~= before + measurement_header() + measurement_lines(measurements@.take(0)));
    while i < measurements.len()
        invariant
            i <= measurements@.len(),
            out@ == before + measurement_header() + measurement_lines(measurements@.take(i as int)),
        decreases measurements@.len() - i,
    {
        let ghost shown = out@;
        let m = measurements[i];
        push_decimal(out, m.iteration as u128);
        out.push(',');
        push_decimal(out, m.elapsed_ms);
        out.push(',');
        push_decimal(out, m.entries as u128);
        out.push(',');
        push_decimal(out, m.files as u128);
        out.push(',');
        push_decimal(out, m.directories as u128);
        out.push(',');
        push_decimal(out, m.inaccessible as u128);
        out.push('\n');
        i += 1;
        proof {
            assert(out@ =~= shown + measurement_line(m));
            assert(measurements@.take(i as int).drop_last() =~= measurements@.take(i - 1));
            assert(out@ =~= before + measurement_header() + measurement_lines(
                measurements@.take(i as int),
            ));
        }
    }
    assert(measurements@.take(measurements@.len() as int) =~= measurements@);
}

/// `n` in decimal with at least six digits.
pub open spec fn six_digits(n: nat) -> Seq<char> {
    let digits = decimal(n);
    if digits.len() < 6 {
        Seq::new((6 - digits.len()) as nat, |i: int| '0') + digits
    } else {
        digits
    }
}

fn push_six_digits(out: &mut String, n: usize)
    ensures
        final(out)@ == old(out)@ + six_digits(n as nat),
{
    let digits = crate::numbers::decimal_digits(n as u128);
    if digits.len() < 6 {
        crate::text::push_repeated(out, '0', 6 - digits.len());
    }
    push_decimal(out, n as u128);
    assert(out@ =~= old(out)@ + six_digits(n as nat));
}

/// The name of a directory of a dataset.
#[must_use]
pub fn dataset_dir_name(index: usize) -> (r: String)
    ensures
        r@ == "dir-"@ + six_digits(index as nat),
{
    let mut r = "dir-".to_owned();
    push_six_digits(&mut r, index);
    r
}

/// The name of a file of a dataset.
#[must_use]
pub fn dataset_file_name(index: usize) -> (r: String)
    ensures
        r@ == "file-"@ + six_digits(index as nat) + ".bin"@,
{
    let mut r = "file-".to_owned();
    push_six_digits(&mut r, index);
    push_text(&mut r, ".bin");
    r
}

/// What is said of a dataset: how many files it has, as far as the number fits.
#[must_use]
pub fn dataset_report(dirs: usize, files_per_dir: usize, root: &str) -> (r: String)
    ensures
        r@ == "created "@ + decimal(
            if dirs * files_per_dir > usize::MAX {
                usize::MAX as nat
            } else {
                (dirs * files_per_dir) as nat
            },
        ) + " files in "@ + decimal(dirs as nat) + " directories under "@ + root@,
{
    let files: usize = match dirs.checked_mul(files_per_dir) {
        Some(n) => n,
        None => usize::MAX,
    };
    let mut r = "created ".to_owned();
    push_decimal(&mut r, files as u128);
    push_text(&mut r, " files in ");
    push_decimal(&mut r, dirs as u128);
    push_text(&mut r, " directories under ");
    push_text(&mut r, root);
    assert(r@ =~= "created "@ + decimal(files as nat) + " files in "@ + decimal(dirs as nat)
        + " directories under "@ + root@);
    r
}

proof fn lemma_no_comma(n: nat)
    ensures
        !decimal(n).contains(','),
        !decimal(n).contains('\n'),
{
    decimal_reads_back(n);
    let s = decimal(n);
    if s.contains(',') {
        let k = choose|k: int| 0 <= k < s.len() && s[k] == ',';
        assert(is_digit(s[k]));
    }
    if s.contains('\n') {
        let k = choose|k: int| 0 <= k < s.len() && s[k] == '\n';
        assert(is_digit(s[k]));
    }
}

/// The line of a measurement ends in a line break, and parted at its commas it reads back: which scan
/// it was, how long it took, and how many entries, files, directories and things that could not be
/// read it found.
pub proof fn a_measurement_reads_back(m: ScanMeasurement)
    ensures
        ({
            let line = measurement_line(m);
            let parts = split_by(line.drop_last(), ',');
            &&& line.last() == '\n'
            &&& parts.len() == 6
            &&& spelled(parts[0], false) == Some(m.iteration as int)
            &&& spelled(parts[1], false) == Some(m.elapsed_ms as int)
            &&& spelled(parts[2], false) == Some(m.entries as int)
            &&& spelled(parts[3], false) == Some(m.files as int)
            &&& spelled(parts[4], false) == Some(m.directories as int)
            &&& spelled(parts[5], false) == Some(m.inaccessible as int)
        }),
{
    let a = decimal(m.iteration as nat);
    let b = decimal(m.elapsed_ms as nat);
    let c = decimal(m.entries as nat);
    let d = decimal(m.files as nat);
    let e = decimal(m.directories as nat);
    let f = decimal(m.inaccessible as nat);
    let line = measurement_line(m);
    let four = e + seq![','] + f;
    let three = d + seq![','] + four;
    let two = c + seq![','] + three;
    let one = b + seq![','] + two;
    assert(line.drop_last() =~= a + seq![','] + one);
    lemma_no_comma(m.iteration as nat);
    lemma_no_comma(m.elapsed_ms as nat);
    lemma_no_comma(m.entries as nat);
    lemma_no_comma(m.files as nat);
    lemma_no_comma(m.directories as nat);
    lemma_no_comma(m.inaccessible as nat);
    a_text_is_split_at_each_place(a, ',', one);
    a_text_is_split_at_each_place(b, ',', two);
    a_text_is_split_at_each_place(c, ',', three);
    a_text_is_split_at_each_place(d, ',', four);
    a_text_is_split_at_each_place(e, ',', f);
    a_text_is_split_at_each_place(f, ',', Seq::empty());
    decimal_reads_back(m.iteration as nat);
    decimal_reads_back(m.elapsed_ms as nat);
    decimal_reads_back(m.entries as nat);
    decimal_reads_back(m.files as nat);
    decimal_reads_back(m.directories as nat);
    decimal_reads_back(m.inaccessible as nat);
    assert(split_by(line.drop_last(), ',') =~= seq![a, b, c, d, e, f]);
}

/// The columns have the names of what stands in them, in the order of the numbers in a line.
pub proof fn columns_are_named()
    ensures
        split_by(measurement_header().drop_last(), ',') == seq![
            "iteration"@,
            "elapsed_ms"@,
            "entries"@,
            "files"@,
            "directories"@,
            "inaccessible"@,
        ],
{
    reveal_strlit("iteration,elapsed_ms,entries,files,directories,inaccessible\n");
    reveal_strlit("iteration");
    reveal_strlit("elapsed_ms");
    reveal_strlit("entries");
    reveal_strlit("files");
    reveal_strlit("directories");
    reveal_strlit("inaccessible");
    let a = "iteration"@;
    let b = "elapsed_ms"@;
    let c = "entries"@;
    let d = "files"@;
    let e = "directories"@;
    let f = "inaccessible"@;
    let four = e + seq![','] + f;
    let three = d + seq![','] + four;
    let two = c + seq![','] + three;
    let one = b + seq![','] + two;
    let text = measurement_header().drop_last();
    assert(text =~= a + seq![','] + one);
    assert(!a.contains(','));
    assert(!b.contains(','));
    assert(!c.contains(','));
    assert(!d.contains(','));
    assert(!e.contains(','));
    assert(!f.contains(','));
    a_text_is_split_at_each_place(a, ',', one);
    a_text_is_split_at_each_place(b, ',', two);
    a_text_is_split_at_each_place(c, ',', three);
    a_text_is_split_at_each_place(d, ',', four);
    a_text_is_split_at_each_place(e, ',', f);
    a_text_is_split_at_each_place(f, ',', Seq::empty());
    assert(split_by(text, ',') =~= seq![a, b, c, d, e, f]);
}

/// A number that is filled up with zeros is the number all the same, and has six digits or more.
pub proof fn zeros_before_a_number_do_not_count(n: nat)
    ensures
        six_digits(n).len() >= 6,
        spelled(six_digits(n), false) == Some(n as int),
{
    decimal_reads_back(n);
    let digits = decimal(n);
    let zeros = Seq::new(
        if digits.len() < 6 {
            (6 - digits.len()) as nat
        } else {
            0
        },
        |i: int| '0',
    );
    let all = six_digits(n);
    assert(all =~= zeros + digits);
    assert forall|k: int| 0 <= k < all.len() implies is_digit(#[trigger] all[k]) by {
        if k >= zeros.len() {
            assert(all[k] == digits[k - zeros.len()]);
        }
    }
    lemma_zeros(zeros.len(), digits);
    assert(is_digit(all[0]));
    assert(without_sign(all, false) == all);
}

proof fn lemma_zeros(count: nat, digits: Seq<char>)
    ensures
        digits_value(Seq::new(count, |i: int| '0') + digits) == digits_value(digits),
    decreases count + digits.len(),
{
    let zeros = Seq::new(count, |i: int| '0');
    let all = zeros + digits;
    if digits.len() > 0 {
        assert(all.drop_last() =~= zeros + digits.drop_last());
        lemma_zeros(count, digits.drop_last());
    } else if count > 0 {
        let fewer = Seq::new((count - 1) as nat, |i: int| '0');
        assert(all.drop_last() =~= fewer + digits);
        lemma_zeros((count - 1) as nat, digits);
        assert(all.last() == '0');
    } else {
        assert(all =~= digits);
    }
}

} // verus!
