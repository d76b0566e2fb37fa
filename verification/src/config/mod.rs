//! Configuration: the built-in templates and the file list of each shell.
use vstd::prelude::*;

use crate::config::templates::{default_path_list, default_paths};
use crate::model::config::{find_key, key_index, keys_distinct, Config, FilesConfig};
use crate::text::string_from_str;

pub mod path_resolver;
pub mod templates;

verus! {

/// `after` is `before` with the built-in file list of `key` added at the end.
pub open spec fn added_default(
    before: Seq<(String, FilesConfig)>,
    after: Seq<(String, FilesConfig)>,
    key: Seq<char>,
) -> bool {
    let ps = default_path_list(key)->0;
    let v = after.last().1.paths@;
    &&& after.len() == before.len() + 1
    &&& after.drop_last() == before
    &&& after.last().0@ == key
    &&& v.len() == ps.len()
    &&& forall|i: int| 0 <= i < ps.len() ==> (#[trigger] v[i])@ == ps[i]
}

/// Once the built-in list of a shell has been added, the shell has a file
/// list, so asking again adds nothing.
pub proof fn law_added_list_stays(
    before: Seq<(String, FilesConfig)>,
    after: Seq<(String, FilesConfig)>,
    key: Seq<char>,
)
    requires
        added_default(before, after, key),
    ensures
        key_index(after, key).is_some(),
{
    assert(after[after.len() - 1].0@ == key);
}

/// Adding the built-in list of a shell that had none keeps one file list
/// per shell key.
pub proof fn law_added_list_keeps_keys_distinct(
    before: Seq<(String, FilesConfig)>,
    after: Seq<(String, FilesConfig)>,
    key: Seq<char>,
)
    requires
        keys_distinct(before),
        key_index(before, key).is_none(),
        added_default(before, after, key),
    ensures
        keys_distinct(after),
{
    assert forall|i: int, j: int| 0 <= i < j < after.len() implies (#[trigger] after[i]).0@ != (
    #[trigger] after[j]).0@ by {
        assert(after[i] == before[i]);
        if j < before.len() {
            assert(after[j] == before[j]);
        } else if before[i].0@ == key {
            assert(exists|k: int| 0 <= k < before.len() && before[k].0@ == key);
        }
    }
}

/// Ensure the configuration has a file list for the given shell, taking the
/// built-in one when it has none. Returns whether a list was added (the
/// caller then saves the configuration).
pub fn ensure_shell_files(config: &mut Config, shell_key: &str) -> (r: bool)
    ensures
        final(config).source_path == old(config).source_path,
        final(config).ui == old(config).ui,
        r == (key_index(old(config).files@, shell_key@).is_none() && default_path_list(
            shell_key@,
        ).is_some()),
        r ==> added_default(old(config).files@, final(config).files@, shell_key@),
        !r ==> final(config).files == old(config).files,
        old(config).wf() ==> final(config).wf(),
{
    if find_key(&config.files, shell_key).is_some() {
        return false;
    }
    match default_paths(shell_key) {
        Some(paths) => {
            config.files.push((string_from_str(shell_key), FilesConfig { paths }));
            assert(config.files@.drop_last() =~= old(config).files@);
            proof {
                if old(config).wf() {
                    law_added_list_keeps_keys_distinct(old(config).files@, config.files@, shell_key@);
                }
            }
            true
        },
        None => false,
    }
}

} // verus!
