//! Configuration of one run: separators, header handling, column choice,
//! sorting, grouping and rendering toggles.

use vstd::prelude::*;

verus! {

/// All options of one invocation, threaded unchanged through the pipeline.
pub struct AppArgs {
    /// Read input from this file.
    pub file: Option<String>,
    /// Explicit header line, tokenized with the same separator rules.
    pub header: Option<String>,
    /// Literal input separator.
    pub sep: String,
    /// Split on runs of whitespace instead of the literal separator.
    pub mb: bool,
    /// Padding width on both sides of each cell.
    pub w: usize,
    /// Column separator string used when borders are off.
    pub colsep: String,
    /// Keep only lines matching this pattern.
    pub filter: Option<String>,
    /// Sort by this 1-based output column.
    pub sortcol: Option<usize>,
    /// Group by this 1-based output column.
    pub gcol: Option<usize>,
    /// Keep repeated group values instead of blanking them.
    pub gcolval: bool,
    /// No format: cells at natural width.
    pub nf: bool,
    /// No numeric alignment.
    pub nn: bool,
    /// The first line is data, not a header.
    pub nhl: bool,
    /// Rule between header and data.
    pub ts: bool,
    /// Rule before the last data row.
    pub fs: bool,
    /// Vertical separator between columns.
    pub cs: bool,
    /// Full border box.
    pub pp: bool,
    /// Discard the first line.
    pub rh: bool,
    /// Leading row with 1-based source column numbers.
    pub num: bool,
    /// Serialize as CSV.
    pub csv: bool,
    /// Serialize as JSON.
    pub json: bool,
    /// Serialize as YAML.
    pub yaml: bool,
    /// Serialize as HTML.
    pub html: bool,
    /// Key JSON and YAML objects by the first column.
    pub jtc: bool,
    /// Print the parsed options and stop.
    pub verify: bool,
    /// Column choices: single 1-based indices or `start:end` ranges.
    pub columns: Vec<String>,
    /// Print the manual page and stop.
    pub manpage: bool,
}

impl Default for AppArgs {
    /// The configuration used when no option is given: space separator,
    /// padding one, box-drawing column separator, every toggle off.
    fn default() -> (r: Self)
        ensures
            r.file is None,
            r.header is None,
            r.sep@ == seq![' '],
            !r.mb,
            r.w == 1,
            r.colsep@ == seq!['\u{2502}'],
            r.filter is None,
            r.sortcol is None,
            r.gcol is None,
            !r.gcolval,
            !r.nf,
            !r.nn,
            !r.nhl,
            !r.ts,
            !r.fs,
            !r.cs,
            !r.pp,
            !r.rh,
            !r.num,
            !r.csv,
            !r.json,
            !r.yaml,
            !r.html,
            !r.jtc,
            !r.verify,
            r.columns@.len() == 0,
            !r.manpage,
    {
        proof {
            reveal_strlit(" ");
            reveal_strlit("\u{2502}");
        }
        AppArgs {
            file: None,
            header: None,
            sep: String::from_str(" "),
            mb: false,
            w: 1,
            colsep: String::from_str("\u{2502}"),
            filter: None,
            sortcol: None,
            gcol: None,
            gcolval: false,
            nf: false,
            nn: false,
            nhl: false,
            ts: false,
            fs: false,
            cs: false,
            pp: false,
            rh: false,
            num: false,
            csv: false,
            json: false,
            yaml: false,
            html: false,
            jtc: false,
            verify: false,
            columns: Vec::new(),
            manpage: false,
        }
    }
}

/// Character-wise text equality.
pub fn txt_eq(a: &str, b: &str) -> (r: bool)
    ensures
        r == (a@ == b@),
{
    let n = a.unicode_len();
    let m = b.unicode_len();
    if n != m {
        return false;
    }
    let mut k: usize = 0;
    while k < n
        invariant
            k <= n,
            n == a@.len(),
            n == b@.len(),
            forall|q: int| 0 <= q < k ==> a@[q] == b@[q],
        decreases n - k,
    {
        if !(a.get_char(k) == b.get_char(k)) {
            return false;
        }
        k = k + 1;
    }
    proof {
        assert(a@ =~= b@);
    }
    true
}

impl AppArgs {
    /// Reads a command line, the program name first, into a configuration:
    /// switches, options with a following value, and positional column
    /// specs.  A token is an option when it starts with `-` and does not
    /// look like a column spec; anything else lands in `columns`.  Flag
    /// parsing sits at the edge of the pipeline, outside the specified
    /// table logic; its behaviour is pinned by the carried-over tests.
    pub fn try_parse_from(argv: &[&str]) -> (r: Result<AppArgs, String>) {
        let mut cur = AppArgs::default();
        let n = argv.len();
        let mut i: usize = 1;
        while i < n
            invariant
                1 <= i,
                n == argv@.len(),
            decreases n - i,
        {
            let t: &str = argv[i];
            let tn = t.unicode_len();
            let looks_opt = tn >= 2 && t.get_char(0) == '-' && !crate::chars::digit_char_check(
                t.get_char(1),
            ) && !(t.get_char(1) == ':');
            if !looks_opt {
                cur.columns.push(String::from_str(t));
                i = i + 1;
                continue ;
            }
            // Switches.
            if txt_eq(t, "-m") || txt_eq(t, "--mb") {
                cur.mb = true;
            } else if txt_eq(t, "--gcolval") {
                cur.gcolval = true;
            } else if txt_eq(t, "--nf") {
                cur.nf = true;
            } else if txt_eq(t, "--nn") {
                cur.nn = true;
            } else if txt_eq(t, "--nhl") {
                cur.nhl = true;
            } else if txt_eq(t, "--ts") {
                cur.ts = true;
            } else if txt_eq(t, "--fs") {
                cur.fs = true;
            } else if txt_eq(t, "--cs") {
                cur.cs = true;
            } else if txt_eq(t, "-p") || txt_eq(t, "--pp") {
                cur.pp = true;
            } else if txt_eq(t, "--rh") {
                cur.rh = true;
            } else if txt_eq(t, "-n") || txt_eq(t, "--num") {
                cur.num = true;
            } else if txt_eq(t, "--csv") {
                cur.csv = true;
            } else if txt_eq(t, "--json") {
                cur.json = true;
            } else if txt_eq(t, "--yaml") {
                cur.yaml = true;
            } else if txt_eq(t, "--html") {
                cur.html = true;
            } else if txt_eq(t, "--jtc") {
                cur.jtc = true;
            } else if txt_eq(t, "-v") || txt_eq(t, "--verify") {
                cur.verify = true;
            } else if txt_eq(t, "-M") || txt_eq(t, "--manpage") {
                cur.manpage = true;
            } else {
                // Options holding a value.
                let is_text = txt_eq(t, "-f") || txt_eq(t, "--file") || txt_eq(t, "-H") || txt_eq(
                    t,
                    "--header",
                ) || txt_eq(t, "-s") || txt_eq(t, "--sep") || txt_eq(t, "-C") || txt_eq(
                    t,
                    "--colsep",
                ) || txt_eq(t, "-F") || txt_eq(t, "--filter");
                let is_num = txt_eq(t, "-w") || txt_eq(t, "--w") || txt_eq(t, "-S") || txt_eq(
                    t,
                    "--sortcol",
                ) || txt_eq(t, "-g") || txt_eq(t, "--gcol");
                if !is_text && !is_num {
                    return Err(String::from_str("unknown option: ").concat(t));
                }
                if i + 1 >= n {
                    return Err(String::from_str("missing value for option: ").concat(t));
                }
                let v: &str = argv[i + 1];
                if is_text {
                    if txt_eq(t, "-f") || txt_eq(t, "--file") {
                        cur.file = Some(String::from_str(v));
                    } else if txt_eq(t, "-H") || txt_eq(t, "--header") {
                        cur.header = Some(String::from_str(v));
                    } else if txt_eq(t, "-s") || txt_eq(t, "--sep") {
                        cur.sep = String::from_str(v);
                    } else if txt_eq(t, "-C") || txt_eq(t, "--colsep") {
                        cur.colsep = String::from_str(v);
                    } else {
                        cur.filter = Some(String::from_str(v));
                    }
                } else {
                    let x = match crate::project::parse_usize(v) {
                        None => {
                            return Err(
                                String::from_str("invalid value for option: ").concat(t),
                            );
                        },
                        Some(x) => x,
                    };
                    if txt_eq(t, "-w") || txt_eq(t, "--w") {
                        cur.w = x;
                    } else if txt_eq(t, "-S") || txt_eq(t, "--sortcol") {
                        cur.sortcol = Some(x);
                    } else {
                        cur.gcol = Some(x);
                    }
                }
                i = i + 2;
                continue ;
            }
            i = i + 1;
        }
        Ok(cur)
    }
}

} // verus!
