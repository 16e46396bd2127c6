//! The `.hanoi` configuration file: filter rules and the directories of
//! federated child servers.

use vstd::prelude::*;
use crate::bytes::{bytes_eq, slice_to_vec};
use crate::filter::{parse_filter, parsed_rule, rules_of, Filter, FilterRule};
use crate::protocol::{trim, trim_line, HASH};
use crate::text::{lemma_split_step, line_end, next_start, split_lines, strip_cr, CARRIAGE_RETURN};

verus! {

pub const OPEN_BRACKET: u8 = 91;
pub const CLOSE_BRACKET: u8 = 93;

/// `filters`
pub open spec fn filters_section() -> Seq<u8> {
    seq![102u8, 105, 108, 116, 101, 114, 115]
}

/// `additional_dirs`
pub open spec fn dirs_section() -> Seq<u8> {
    seq![97u8, 100, 100, 105, 116, 105, 111, 110, 97, 108, 95, 100, 105, 114, 115]
}

/// What has been read of a configuration so far.
pub struct ConfigState {
    pub section: Seq<u8>,
    pub rules: Seq<FilterRule>,
    pub dirs: Seq<Seq<u8>>,
}

/// The effect of one line, taken without surrounding whitespace: blank lines
/// and `#` comments are skipped; `[name]` opens a section; in `filters` a
/// line is a rule, in `additional_dirs` a directory; elsewhere it is skipped.
pub open spec fn config_step(st: ConfigState, raw: Seq<u8>) -> ConfigState {
    let line = trim(raw);
    if line.len() == 0 || line[0] == HASH {
        st
    } else if line.len() >= 2 && line[0] == OPEN_BRACKET && line.last() == CLOSE_BRACKET {
        ConfigState { section: line.subrange(1, line.len() - 1), ..st }
    } else if st.section == filters_section() {
        ConfigState { rules: st.rules.push(parsed_rule(line)), ..st }
    } else if st.section == dirs_section() {
        ConfigState { dirs: st.dirs.push(line), ..st }
    } else {
        st
    }
}

/// The configuration that a sequence of lines gives, read from the top,
/// outside any section at first.
pub open spec fn config_of(lines: Seq<Seq<u8>>) -> ConfigState
    decreases lines.len(),
{
    if lines.len() == 0 {
        ConfigState { section: Seq::empty(), rules: Seq::empty(), dirs: Seq::empty() }
    } else {
        config_step(config_of(lines.drop_last()), lines.last())
    }
}

/// A parsed configuration.
pub struct Config {
    pub filters: Vec<Filter>,
    pub additional_dirs: Vec<Vec<u8>>,
}

pub open spec fn dirs_of(v: Seq<Vec<u8>>) -> Seq<Seq<u8>> {
    v.map_values(|d: Vec<u8>| d@)
}

fn section_name(which: bool) -> (r: Vec<u8>)
    ensures
        r@ == if which {
            filters_section()
        } else {
            dirs_section()
        },
{
    if which {
        let r: Vec<u8> = vec![102u8, 105, 108, 116, 101, 114, 115];
        assert(r@ =~= filters_section());
        r
    } else {
        let r: Vec<u8> = vec![97u8, 100, 100, 105, 116, 105, 111, 110, 97, 108, 95, 100, 105, 114, 115];
        assert(r@ =~= dirs_section());
        r
    }
}

/// Parses the text of a configuration file.
pub fn parse_config(text: &[u8]) -> (r: Config)
    ensures
        rules_of(r.filters@) == config_of(split_lines(text@)).rules,
        dirs_of(r.additional_dirs@) == config_of(split_lines(text@)).dirs,
{
    let filters_name = section_name(true);
    let dirs_name = section_name(false);
    let mut filters: Vec<Filter> = Vec::new();
    let mut dirs: Vec<Vec<u8>> = Vec::new();
    let mut section: Vec<u8> = Vec::new();
    let ghost all = split_lines(text@);
    let ghost mut done: Seq<Seq<u8>> = Seq::empty();
    let mut pos: usize = 0;
    assert(text@.skip(0) =~= text@);
    assert(rules_of(filters@) =~= Seq::<FilterRule>::empty());
    assert(dirs_of(dirs@) =~= Seq::<Seq<u8>>::empty());
    while pos < text.len()
        invariant
            pos <= text@.len(),
            all == split_lines(text@),
            all == done + split_lines(text@.skip(pos as int)),
            filters_name@ == filters_section(),
            dirs_name@ == dirs_section(),
            section@ == config_of(done).section,
            rules_of(filters@) == config_of(done).rules,
            dirs_of(dirs@) == config_of(done).dirs,
        decreases text.len() - pos,
    {
        let j = line_end(text, pos);
        proof {
            lemma_split_step(text@, pos as int, j as int);
        }
        let mut hi = j;
        if hi > pos && text[hi - 1] == CARRIAGE_RETURN {
            hi = hi - 1;
        }
        let raw = slice_to_vec(text, pos, hi);
        assert(raw@ == strip_cr(text@.subrange(pos as int, j as int))) by {
            if j > pos && text@[j - 1] == CARRIAGE_RETURN {
                assert(raw@ =~= text@.subrange(pos as int, j as int).drop_last());
            }
        }
        let ghost next_done = done.push(raw@);
        assert(next_done.drop_last() =~= done);
        assert(all =~= next_done + split_lines(text@.skip(next_start(text@, j as int))));
        let line = trim_line(raw.as_slice());
        let n = line.len();
        if n == 0 || line[0] == HASH {
        } else if n >= 2 && line[0] == OPEN_BRACKET && line[n - 1] == CLOSE_BRACKET {
            section = slice_to_vec(line.as_slice(), 1, n - 1);
        } else if bytes_eq(section.as_slice(), filters_name.as_slice()) {
            let ghost before = filters@;
            parse_filter(line.as_slice(), &mut filters);
            assert(rules_of(filters@) =~= rules_of(before).push(parsed_rule(line@))) by {
                assert(filters@ =~= before.push(filters@.last()));
            }
        } else if bytes_eq(section.as_slice(), dirs_name.as_slice()) {
            let ghost before = dirs@;
            dirs.push(line);
            assert(dirs_of(dirs@) =~= dirs_of(before).push(line@));
        }
        proof {
            done = next_done;
        }
        pos = if j < text.len() { j + 1 } else { j };
    }
    assert(text@.skip(pos as int) =~= Seq::<u8>::empty());
    assert(all =~= done);
    Config { filters, additional_dirs: dirs }
}

} // verus!
