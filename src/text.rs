use vstd::prelude::*;

verus! {

/// Marks an entry that has later siblings.
pub open spec fn spec_tee() -> Seq<char> {
    seq!['\u{251C}', '\u{2500}', '\u{2500}', ' ']
}

/// Marks the last entry of a directory.
pub open spec fn spec_corner() -> Seq<char> {
    seq!['\u{2514}', '\u{2500}', '\u{2500}', ' ']
}

/// The glyph in front of an entry's name.
pub open spec fn spec_connector(last: bool) -> Seq<char> {
    if last {
        spec_corner()
    } else {
        spec_tee()
    }
}

/// The indentation that an entry hands down to its children.
pub open spec fn spec_fragment(last: bool) -> Seq<char> {
    if last {
        seq![' ', ' ', ' ', ' ']
    } else {
        seq!['\u{2502}', ' ', ' ', ' ']
    }
}

/// Separates a link's name from its target.
pub open spec fn spec_arrow() -> Seq<char> {
    seq![' ', '-', '>', ' ']
}

pub fn connector(last: bool) -> (r: &'static str)
    ensures
        r@ == spec_connector(last),
{
    if last {
        proof {
            reveal_strlit("\u{2514}\u{2500}\u{2500} ");
        }
        "\u{2514}\u{2500}\u{2500} "
    } else {
        proof {
            reveal_strlit("\u{251C}\u{2500}\u{2500} ");
        }
        "\u{251C}\u{2500}\u{2500} "
    }
}

pub fn fragment(last: bool) -> (r: &'static str)
    ensures
        r@ == spec_fragment(last),
{
    if last {
        proof {
            reveal_strlit("    ");
        }
        "    "
    } else {
        proof {
            reveal_strlit("\u{2502}   ");
        }
        "\u{2502}   "
    }
}

pub fn arrow() -> (r: &'static str)
    ensures
        r@ == spec_arrow(),
{
    proof {
        reveal_strlit(" -> ");
    }
    " -> "
}

pub open spec fn digit_char(d: nat) -> char {
    if d == 0 { '0' }
    else if d == 1 { '1' }
    else if d == 2 { '2' }
    else if d == 3 { '3' }
    else if d == 4 { '4' }
    else if d == 5 { '5' }
    else if d == 6 { '6' }
    else if d == 7 { '7' }
    else if d == 8 { '8' }
    else { '9' }
}

/// The decimal digits of `n`, most significant first.
pub open spec fn decimal(n: nat) -> Seq<char>
    decreases n,
{
    if n < 10 {
        seq![digit_char(n)]
    } else {
        decimal(n / 10) + seq![digit_char(n % 10)]
    }
}

/// The closing line: both counts, each with its noun in the right number.
pub open spec fn summary_text(dirs: nat, files: nat) -> Seq<char> {
    decimal(dirs) + (if dirs == 1 { " directory"@ } else { " directories"@ }) + ", "@
        + decimal(files) + (if files == 1 { " file"@ } else { " files"@ })
}

fn digit(d: u64) -> (r: &'static str)
    requires
        d < 10,
    ensures
        r@ == seq![digit_char(d as nat)],
{
    proof {
        reveal_strlit("0");
        reveal_strlit("1");
        reveal_strlit("2");
        reveal_strlit("3");
        reveal_strlit("4");
        reveal_strlit("5");
        reveal_strlit("6");
        reveal_strlit("7");
        reveal_strlit("8");
        reveal_strlit("9");
    }
    if d == 0 { "0" }
    else if d == 1 { "1" }
    else if d == 2 { "2" }
    else if d == 3 { "3" }
    else if d == 4 { "4" }
    else if d == 5 { "5" }
    else if d == 6 { "6" }
    else if d == 7 { "7" }
    else if d == 8 { "8" }
    else { "9" }
}

/// Writes `n` in decimal.
pub fn decimal_string(n: u64) -> (r: String)
    ensures
        r@ == decimal(n as nat),
    decreases n,
{
    if n < 10 {
        String::from_str(digit(n))
    } else {
        let mut s = decimal_string(n / 10);
        s.append(digit(n % 10));
        s
    }
}

/// The closing line of a report, such as `1 directory, 2 files`.
pub fn summary_line(dirs: u64, files: u64) -> (r: String)
    ensures
        r@ == summary_text(dirs as nat, files as nat),
{
    let mut s = decimal_string(dirs);
    if dirs == 1 {
        proof { reveal_strlit(" directory"); }
        s.append(" directory");
    } else {
        proof { reveal_strlit(" directories"); }
        s.append(" directories");
    }
    proof { reveal_strlit(", "); }
    s.append(", ");
    let f = decimal_string(files);
    s.append(f.as_str());
    if files == 1 {
        proof { reveal_strlit(" file"); }
        s.append(" file");
    } else {
        proof { reveal_strlit(" files"); }
        s.append(" files");
    }
    s
}

} // verus!
