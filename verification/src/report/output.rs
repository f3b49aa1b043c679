//! Where reports are written.
use vstd::prelude::*;
use crate::chars;
use crate::report::ReportFormat;
use crate::text;

verus! {

/// Where a report goes, relative to the path that was asked for.
#[derive(Debug, Clone, Copy, PartialEq, Eq, Structural)]
pub enum Placement {
    /// To the format's default name in that directory.
    InDirectory,
    /// To that very path.
    AsGiven,
    /// To that path with the format's extension.
    WithExtension,
}

/// The formats that were asked for, each once.
pub open spec fn unique(formats: Seq<ReportFormat>) -> Seq<ReportFormat>
    decreases formats.len(),
{
    if formats.len() == 0 {
        seq![]
    } else {
        let before = unique(formats.drop_last());
        if before.contains(formats.last()) {
            before
        } else {
            before.push(formats.last())
        }
    }
}

/// Where the reports go: into a directory under their default names, or beside
/// each other with their extensions. A single report keeps the extension that it
/// was given.
pub open spec fn placement(
    output: Seq<char>,
    is_dir: bool,
    has_extension: bool,
    single: bool,
) -> Placement {
    if (output.len() > 0 && output.last() == '/') || is_dir {
        Placement::InDirectory
    } else if single && has_extension {
        Placement::AsGiven
    } else {
        Placement::WithExtension
    }
}

fn has_format(items: &Vec<ReportFormat>, format: ReportFormat) -> (r: bool)
    ensures
        r == items@.contains(format),
{
    for i in 0..items.len()
        invariant
            forall|j: int| 0 <= j < i ==> items@[j] != format,
    {
        if items[i] == format {
            return true;
        }
    }
    false
}

/// The reports are written to the path as a directory.
pub fn is_directory_output(output: &str, is_dir: bool) -> (r: bool)
    ensures
        r == (placement(output@, is_dir, false, false) == Placement::InDirectory),
{
    text::ends_with_char(output, '/') || is_dir
}

/// Each format with where its report goes.
pub open spec fn outputs(
    formats: Seq<ReportFormat>,
    output: Seq<char>,
    is_dir: bool,
    has_extension: bool,
) -> Seq<(ReportFormat, Placement)> {
    unique(formats).map_values(
        |f: ReportFormat|
            (f, placement(output, is_dir, has_extension, unique(formats).len() == 1)),
    )
}

/// The formats to write, and where each goes, given whether the path is that of a
/// directory and whether it has an extension.
pub fn resolve_output_paths(
    formats: &Vec<ReportFormat>,
    output: &str,
    is_dir: bool,
    has_extension: bool,
) -> (r: Vec<(ReportFormat, Placement)>)
    ensures
        r@ == outputs(formats@, output@, is_dir, has_extension),
{
    let mut chosen: Vec<ReportFormat> = Vec::new();
    for i in 0..formats.len()
        invariant
            chosen@ == unique(formats@.take(i as int)),
    {
        assert(formats@.take(i + 1).drop_last() =~= formats@.take(i as int));
        if !has_format(&chosen, formats[i]) {
            chosen.push(formats[i]);
        }
    }
    assert(formats@.take(formats@.len() as int) =~= formats@);
    let place: Placement = if is_directory_output(output, is_dir) {
        Placement::InDirectory
    } else if chosen.len() == 1 && has_extension {
        Placement::AsGiven
    } else {
        Placement::WithExtension
    };
    let mut out: Vec<(ReportFormat, Placement)> = Vec::new();
    for i in 0..chosen.len()
        invariant
            out@ == chosen@.take(i as int).map_values(|f: ReportFormat| (f, place)),
    {
        out.push((chosen[i], place));
        assert(out@ =~= chosen@.take(i + 1).map_values(|f: ReportFormat| (f, place)));
    }
    assert(chosen@.take(chosen@.len() as int) =~= chosen@);
    assert(out@ =~= outputs(formats@, output@, is_dir, has_extension));
    out
}

/// Every format that was asked for is written, and none twice.
pub proof fn law_each_format_once(formats: Seq<ReportFormat>)
    ensures
        unique(formats).no_duplicates(),
        forall|f: ReportFormat| #[trigger] unique(formats).contains(f) == formats.contains(f),
    decreases formats.len(),
{
    if formats.len() > 0 {
        let init = formats.drop_last();
        let before = unique(init);
        law_each_format_once(init);
        assert(formats =~= init.push(formats.last()));
        assert forall|f: ReportFormat| #[trigger] unique(formats).contains(f) == formats.contains(
            f,
        ) by {
            if init.contains(f) {
                let i = init.index_of(f);
                assert(formats[i] == f);
                assert(before.contains(f));
                let j = before.index_of(f);
                assert(unique(formats)[j] == f);
            }
            if f == formats.last() {
                assert(formats[formats.len() - 1] == f);
                if !before.contains(f) {
                    assert(unique(formats)[before.len() as int] == f);
                }
            }
            if unique(formats).contains(f) {
                let j = unique(formats).index_of(f);
                if j < before.len() {
                    assert(before[j] == f);
                    assert(before.contains(f));
                    assert(init.contains(f));
                }
            }
            if formats.contains(f) {
                let i = formats.index_of(f);
                if i < init.len() {
                    assert(init[i] == f);
                }
            }
        }
    }
}

/// A file is a web page.
pub open spec fn is_page(name: Seq<char>) -> bool {
    chars::extension(name) == Some("html"@)
}

/// The report to open: the first web page, else the first of all.
pub fn preferred(names: &Vec<String>) -> (r: Option<usize>)
    ensures
        match r {
            Some(k) => {
                let all = chars::views(names@);
                &&& k < names.len()
                &&& is_page(all[k as int]) ==> forall|j: int|
                    0 <= j < k ==> !is_page(#[trigger] all[j])
                &&& !is_page(all[k as int]) ==> k == 0 && forall|j: int|
                    0 <= j < all.len() ==> !is_page(#[trigger] all[j])
            },
            None => names.len() == 0,
        },
{
    for i in 0..names.len()
        invariant
            forall|j: int| 0 <= j < i ==> !is_page(#[trigger] chars::views(names@)[j]),
    {
        let page: bool = match text::extension(names[i].as_str()) {
            Some(ext) => text::eq(ext, "html"),
            None => false,
        };
        if page {
            return Some(i);
        }
    }
    if names.len() > 0 {
        Some(0)
    } else {
        None
    }
}

/// A report goes into a directory where the output names one; it goes where the
/// output says where that is one file with an extension and one format; else each
/// format's extension is put behind the output.
pub proof fn law_where_reports_go(output: Seq<char>, is_dir: bool, has_extension: bool, single: bool)
    ensures
        ({
            let named = is_dir || (output.len() > 0 && output[output.len() - 1] == '/');
            let r = placement(output, is_dir, has_extension, single);
            &&& r == Placement::InDirectory <==> named
            &&& r == Placement::AsGiven <==> !named && single && has_extension
            &&& r == Placement::WithExtension <==> !named && !(single && has_extension)
        }),
{
}

/// Formats that are given once each stay as they were given.
pub proof fn law_formats_in_order(formats: Seq<ReportFormat>)
    requires
        formats.no_duplicates(),
    ensures
        unique(formats) == formats,
    decreases formats.len(),
{
    if formats.len() > 0 {
        let front = formats.drop_last();
        law_formats_in_order(front);
        if front.contains(formats.last()) {
            let i = choose|i: int| 0 <= i < front.len() && front[i] == formats.last();
            assert(formats[i] == formats[formats.len() - 1]);
        }
        assert(front.push(formats.last()) =~= formats);
    }
}

/// A page is a file with the extension `html`.
pub proof fn law_is_page(stem: Seq<char>, ending: Seq<char>)
    requires
        stem.len() > 0,
        !ending.contains('.'),
    ensures
        is_page(stem + seq!['.'] + ending) <==> ending == "html"@,
        !stem.contains('.') ==> !is_page(stem),
{
    chars::lemma_last(stem, '.', ending);
    if !stem.contains('.') {
        chars::lemma_last_all(stem, '.');
    }
}

/// Each format that is given has one output. It is the output as given where that has
/// an extension and no other format is given, however often this one is.
pub proof fn law_outputs(
    formats: Seq<ReportFormat>,
    output: Seq<char>,
    is_dir: bool,
    has_extension: bool,
    f: ReportFormat,
)
    requires
        formats.contains(f),
    ensures
        ({
            let r = outputs(formats, output, is_dir, has_extension);
            let only = forall|i: int| 0 <= i < formats.len() ==> #[trigger] formats[i] == f;
            let named = is_dir || (output.len() > 0 && output[output.len() - 1] == '/');
            let place = if named {
                Placement::InDirectory
            } else if only && has_extension {
                Placement::AsGiven
            } else {
                Placement::WithExtension
            };
            &&& r.contains((f, place))
            &&& forall|i: int| 0 <= i < r.len() && (#[trigger] r[i]).0 == f ==> r[i].1 == place
            &&& r.len() == unique(formats).len()
        }),
{
    let r = outputs(formats, output, is_dir, has_extension);
    let all = unique(formats);
    law_each_format_once(formats);
    assert(all.contains(f));
    let k = choose|k: int| 0 <= k < all.len() && all[k] == f;
    if forall|i: int| 0 <= i < formats.len() ==> #[trigger] formats[i] == f {
        if all.len() > 1 {
            let h = if k == 0 {
                1int
            } else {
                0int
            };
            assert(all.contains(all[h]));
            let i = choose|i: int| 0 <= i < formats.len() && formats[i] == all[h];
            assert(formats[i] == f);
            assert(all[h] == all[k]);
        }
    } else {
        let i = choose|i: int| 0 <= i < formats.len() && #[trigger] formats[i] != f;
        assert(formats.contains(formats[i]));
        assert(all.contains(formats[i]));
        let h = choose|h: int| 0 <= h < all.len() && all[h] == formats[i];
        assert(h != k);
        assert(all.len() > 1);
    }
    assert(r[k].0 == f);
    assert(r.contains(r[k]));
}

} // verus!
