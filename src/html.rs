use vstd::prelude::*;

use crate::record::DedupFile;

verus! {

/// Decimal digits of `n`, most significant first, without leading zeros.
pub open spec fn decimal_text(n: nat) -> Seq<char>
    decreases n,
{
    let d = ((n % 10) + ('0' as nat)) as char;
    if n < 10 {
        seq![d]
    } else {
        decimal_text(n / 10).push(d)
    }
}

/// The paths of one file, each in a `code` element, separated by commas.
pub open spec fn joined_paths(paths: Seq<Seq<char>>) -> Seq<char>
    decreases paths.len(),
{
    if paths.len() == 0 {
        Seq::empty()
    } else if paths.len() == 1 {
        paths[0]
    } else {
        joined_paths(paths.drop_last()) + "</code>, <code>"@ + paths.last()
    }
}

/// One paragraph for each file of a group.
pub open spec fn file_paragraphs(group: Seq<DedupFile>) -> Seq<char>
    decreases group.len(),
{
    if group.len() == 0 {
        Seq::empty()
    } else {
        file_paragraphs(group.drop_last()) + "<p><code>"@ + joined_paths(group.last()@.paths) + "</code></p>"@
    }
}

/// The table row of one group: its files, then their common size.
pub open spec fn group_row(group: Seq<DedupFile>) -> Seq<char> {
    "    <tr><td>"@ + file_paragraphs(group) + "</td><td>"@ + decimal_text(group[0].size as nat)
        + "</td></tr>\n"@
}

pub open spec fn group_rows(groups: Seq<Vec<DedupFile>>) -> Seq<char>
    decreases groups.len(),
{
    if groups.len() == 0 {
        Seq::empty()
    } else {
        group_rows(groups.drop_last()) + group_row(groups.last()@)
    }
}

pub const PAGE_TOP: &'static str = "<!doctype html>
<html lang=\"en\">
  <head>
    <meta charset=\"utf-8\">
    <title>Results</title>
    <style>
        html {
            font-family: sans-serif;
        }

        table {
            border-collapse: collapse;
            border: 1px solid black;
            margin: 1em;
        }

        th, td {
            padding: 0.5em 1em;
            border: 1px solid black;
        }
    </style>
  </head>
  <body>
    <table>
      <thead>
        <tr><th>Files</th><th>Size</th></tr>
      </thead>
      <tbody>
";

pub const PAGE_BOTTOM: &'static str = "</tbody>
    </table>
  </body>
</html>
";

/// Relies on `u64`'s `Display` (through `to_string`): the decimal digits of
/// the number.
#[verifier::external_body]
fn u64_text(n: u64) -> (r: String)
    ensures
        r@ == decimal_text(n as nat),
{
    n.to_string()
}

fn append_joined_paths(out: &mut String, paths: &Vec<String>)
    ensures
        final(out)@ == old(out)@ + joined_paths(paths@.map_values(|p: String| p@)),
{
    let ghost pv = paths@.map_values(|p: String| p@);
    let ghost start = out@;
    let mut i: usize = 0;
    while i < paths.len()
        invariant
            i <= paths@.len(),
            pv == paths@.map_values(|p: String| p@),
            out@ == start + joined_paths(pv.subrange(0, i as int)),
        decreases paths@.len() - i,
    {
        let ghost before = out@;
        proof {
            reveal_strlit("</code>, <code>");
        }
        if i > 0 {
            out.append("</code>, <code>");
        }
        out.append(paths[i].as_str());
        proof {
            let next = pv.subrange(0, i + 1);
            assert(next.drop_last() =~= pv.subrange(0, i as int));
            if i == 0 {
                assert(pv.subrange(0, 0) =~= Seq::<Seq<char>>::empty());
                assert(out@ =~= start + next[0]);
            } else {
                assert(out@ =~= before + "</code>, <code>"@ + pv[i as int]);
            }
        }
        i = i + 1;
    }
    assert(pv.subrange(0, paths@.len() as int) =~= pv);
}

fn append_group_row(out: &mut String, group: &Vec<DedupFile>)
    requires
        group@.len() > 0,
    ensures
        final(out)@ == old(out)@ + group_row(group@),
{
    let ghost start = out@;
    out.append("    <tr><td>");
    let mut i: usize = 0;
    while i < group.len()
        invariant
            i <= group@.len(),
            group@.len() > 0,
            out@ == start + "    <tr><td>"@ + file_paragraphs(group@.subrange(0, i as int)),
        decreases group@.len() - i,
    {
        let ghost before = out@;
        out.append("<p><code>");
        append_joined_paths(out, &group[i].paths);
        out.append("</code></p>");
        proof {
            let next = group@.subrange(0, i + 1);
            assert(next.drop_last() =~= group@.subrange(0, i as int));
            assert(out@ =~= start + "    <tr><td>"@ + file_paragraphs(next));
        }
        i = i + 1;
    }
    assert(group@.subrange(0, group@.len() as int) =~= group@);
    out.append("</td><td>");
    let size = u64_text(group[0].size);
    out.append(size.as_str());
    out.append("</td></tr>\n");
    assert(out@ =~= start + group_row(group@));
}

/// The HTML page that lists the groups of duplicates as a table: one row
/// per group, with the paths of each file and the size.
pub fn write_dupes_html(dupes: &Vec<Vec<DedupFile>>) -> (r: String)
    requires
        forall|i: int| 0 <= i < dupes@.len() ==> (#[trigger] dupes@[i]@).len() > 0,
    ensures
        r@ == PAGE_TOP@ + group_rows(dupes@) + PAGE_BOTTOM@,
{
    let mut out = String::from_str(PAGE_TOP);
    let mut i: usize = 0;
    while i < dupes.len()
        invariant
            i <= dupes@.len(),
            forall|i: int| 0 <= i < dupes@.len() ==> (#[trigger] dupes@[i]@).len() > 0,
            out@ == PAGE_TOP@ + group_rows(dupes@.subrange(0, i as int)),
        decreases dupes@.len() - i,
    {
        append_group_row(&mut out, &dupes[i]);
        proof {
            let next = dupes@.subrange(0, i + 1);
            assert(next.drop_last() =~= dupes@.subrange(0, i as int));
        }
        i = i + 1;
    }
    assert(dupes@.subrange(0, dupes@.len() as int) =~= dupes@);
    out.append(PAGE_BOTTOM);
    out
}

} // verus!
