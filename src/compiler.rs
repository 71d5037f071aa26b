use vstd::prelude::*;

verus! {

/// The directory, under the target directory, that receives expanded sources.
pub const SOURCES_DIR: &'static str = "src";

/// `s` with every `::` replaced by `_`, scanning from the left.
pub open spec fn flatten_path(s: Seq<char>) -> Seq<char>
    decreases s.len(),
{
    if s.len() == 0 {
        Seq::empty()
    } else if s.len() >= 2 && s[0] == ':' && s[1] == ':' {
        seq!['_'] + flatten_path(s.subrange(2, s.len() as int))
    } else {
        seq![s[0]] + flatten_path(s.subrange(1, s.len() as int))
    }
}

/// The compiler that writes each contract's expanded source and its class.
#[derive(Clone, Copy, Debug)]
pub struct DemoCompiler;

impl DemoCompiler {
    /// The kind of target this compiler builds.
    pub fn target_kind(&self) -> (r: String)
        ensures
            r@ == "demo"@,
    {
        String::from_str("demo")
    }

    /// The file name of a contract's expanded source: its full path with `::`
    /// turned into `_`, and `.cairo` appended.
    pub fn source_file_name(&self, contract_path: &String) -> (r: String)
        ensures
            r@ == flatten_path(contract_path@ + ".cairo"@),
    {
        let full = contract_path.clone().concat(".cairo");
        let n = full.as_str().unicode_len();
        let mut out = String::new();
        let mut i: usize = 0;
        assert(full@.subrange(0, n as int) =~= full@);
        assert(out@ + flatten_path(full@) =~= flatten_path(full@));
        while i < n
            invariant
                n == full@.len(),
                0 <= i <= n,
                flatten_path(full@) == out@ + flatten_path(full@.subrange(i as int, n as int)),
            decreases n - i,
        {
            let ghost rest = full@.subrange(i as int, n as int);
            if i + 1 < n && full.as_str().get_char(i) == ':' && full.as_str().get_char(i + 1) == ':' {
                assert(rest.subrange(2, rest.len() as int) =~= full@.subrange(i + 2, n as int));
                out.append("_");
                proof {
                    reveal_strlit("_");
                }
                assert(out@ + flatten_path(full@.subrange(i + 2, n as int)) =~= flatten_path(full@)) by {
                    assert(flatten_path(rest) == seq!['_'] + flatten_path(rest.subrange(2, rest.len() as int)));
                }
                i = i + 2;
            } else {
                assert(rest.subrange(1, rest.len() as int) =~= full@.subrange(i + 1, n as int));
                out.append(full.as_str().substring_char(i, i + 1));
                assert(full@.subrange(i as int, i + 1) =~= seq![rest[0]]);
                assert(out@ + flatten_path(full@.subrange(i + 1, n as int)) =~= flatten_path(full@)) by {
                    assert(flatten_path(rest) == seq![rest[0]] + flatten_path(rest.subrange(1, rest.len() as int)));
                }
                i = i + 1;
            }
        }
        assert(full@.subrange(n as int, n as int) =~= Seq::<char>::empty());
        assert(out@ =~= flatten_path(full@));
        out
    }

    /// The file name of a contract's class: its full path with `.sierra.json`
    /// appended.
    pub fn class_file_name(&self, contract_path: &String) -> (r: String)
        ensures
            r@ == contract_path@ + ".sierra.json"@,
    {
        contract_path.clone().concat(".sierra.json")
    }
}

} // verus!
