//! Rendering of the document: the title, then one section for each
//! category, which lists the components of that category.

use crate::component::{Component, ComponentView};
use crate::config::{Config, ConfigView};
use crate::grouping::{
    categories_of, category_sequence, find_group, group_by_category, group_names,
    lemma_category_sequence_member, members_of, order_categories,
};
use crate::text::{append_trim_end, trim_end, views};
use vstd::prelude::*;

verus! {

/// The head of the document: the title line, and the description, where
/// the configuration has one, as a paragraph of its own.
pub open spec fn heading_block(config: ConfigView) -> Seq<char> {
    seq!['#', ' '] + config.title_text() + seq!['\n'] + match config.description {
        Some(d) => seq!['\n'] + trim_end(d) + seq!['\n'],
        None => Seq::empty(),
    }
}

/// The line that lists one component.
pub open spec fn entry_line(c: ComponentView) -> Seq<char> {
    seq!['-', ' ', '`'] + c.path + seq!['`', ':', ' '] + c.description + seq!['\n']
}

/// The lines that list `members`, in their order.
pub open spec fn entry_lines(members: Seq<ComponentView>) -> Seq<char>
    decreases members.len(),
{
    if members.len() == 0 {
        Seq::empty()
    } else {
        entry_lines(members.drop_last()) + entry_line(members.last())
    }
}

/// The first lines of the section of the category `name`: an empty line,
/// the heading, the configured description as a paragraph of its own where
/// there is one, and an empty line.
pub open spec fn section_head(name: Seq<char>, config: ConfigView) -> Seq<char> {
    seq!['\n', '#', '#', ' '] + config.display_title(name) + seq!['\n']
        + match config.category_description(name) {
        Some(d) => seq!['\n'] + trim_end(d) + seq!['\n'],
        None => Seq::empty(),
    } + seq!['\n']
}

/// The section of the category `name` with the members `members`.
pub open spec fn section(name: Seq<char>, members: Seq<ComponentView>, config: ConfigView) -> Seq<
    char,
> {
    section_head(name, config) + entry_lines(members)
}

/// The sections of the categories `names`, in their order, each with the
/// members that it has among `cs`.
pub open spec fn sections(names: Seq<Seq<char>>, cs: Seq<ComponentView>, config: ConfigView) -> Seq<
    char,
>
    decreases names.len(),
{
    if names.len() == 0 {
        Seq::empty()
    } else {
        sections(names.drop_last(), cs, config) + section(
            names.last(),
            members_of(cs, names.last()),
            config,
        )
    }
}

/// The document for the components `cs` under the configuration `config`:
/// the head alone where there is no component, else the head and one section
/// for each category in the order of `category_sequence`.
pub open spec fn document(cs: Seq<ComponentView>, config: ConfigView) -> Seq<char> {
    if cs.len() == 0 {
        heading_block(config)
    } else {
        heading_block(config) + sections(
            category_sequence(categories_of(cs), config.names()),
            cs,
            config,
        )
    }
}

/// Writes the head of the document.
fn write_heading(config: &Config) -> (out: String)
    ensures
        out@ == heading_block(config@),
{
    let mut out = String::new();
    out.push('#');
    out.push(' ');
    out.append(config.title());
    out.push('\n');
    match &config.description {
        Some(d) => {
            let ghost before = out@;
            out.push('\n');
            append_trim_end(&mut out, d.as_str());
            out.push('\n');
            assert(out@ =~= before + (seq!['\n'] + trim_end(d@) + seq!['\n']));
            assert(before =~= seq!['#', ' '] + config@.title_text() + seq!['\n']);
        },
        None => {
            assert(out@ =~= seq!['#', ' '] + config@.title_text() + seq!['\n'] + Seq::<
                char,
            >::empty());
        },
    }
    out
}

/// Writes the line that lists the component `c`.
fn write_entry(out: &mut String, c: &Component)
    ensures
        final(out)@ == old(out)@ + entry_line(c@),
{
    out.push('-');
    out.push(' ');
    out.push('`');
    out.append(c.path.as_str());
    out.push('`');
    out.push(':');
    out.push(' ');
    out.append(c.description.as_str());
    out.push('\n');
    assert(out@ =~= old(out)@ + entry_line(c@));
}

/// Writes the first lines of the section of the category `name`.
fn write_section_head(out: &mut String, name: &str, config: &Config)
    ensures
        final(out)@ == old(out)@ + section_head(name@, config@),
{
    out.push('\n');
    out.push('#');
    out.push('#');
    out.push(' ');
    out.append(config.display_title_for(name));
    out.push('\n');
    let ghost titled = out@;
    assert(titled =~= old(out)@ + (seq!['\n', '#', '#', ' '] + config@.display_title(name@)
        + seq!['\n']));
    if let Some(entry) = config.get_category(name) {
        if let Some(d) = &entry.description {
            out.push('\n');
            append_trim_end(out, d.as_str());
            out.push('\n');
            assert(out@ =~= titled + (seq!['\n'] + trim_end(d@) + seq!['\n']));
        }
    }
    let ghost paragraph = match config@.category_description(name@) {
        Some(d) => seq!['\n'] + trim_end(d) + seq!['\n'],
        None => Seq::empty(),
    };
    assert(out@ =~= titled + paragraph);
    out.push('\n');
    assert(out@ =~= old(out)@ + section_head(name@, config@));
}

/// Writes the section of the category `name` with the members `members`.
fn write_section(out: &mut String, name: &str, members: &Vec<Component>, config: &Config)
    ensures
        final(out)@ == old(out)@ + section(name@, views(members@), config@),
{
    write_section_head(out, name, config);
    let ghost headed = out@;
    let ghost all = views(members@);
    let mut i: usize = 0;
    assert(all.take(0) =~= Seq::<ComponentView>::empty());
    assert(out@ =~= headed + entry_lines(all.take(0)));
    while i < members.len()
        invariant
            i <= members@.len(),
            all == views(members@),
            out@ == headed + entry_lines(all.take(i as int)),
        decreases members@.len() - i,
    {
        write_entry(out, &members[i]);
        proof {
            assert(all.take(i + 1).drop_last() =~= all.take(i as int));
            assert(all.take(i + 1).last() == members@[i as int]@);
            assert(out@ =~= headed + entry_lines(all.take(i + 1)));
        }
        i += 1;
    }
    proof {
        assert(all.take(i as int) =~= all);
        assert(out@ =~= old(out)@ + section(name@, all, config@));
    }
}

/// Every document begins with the title line: `# `, the title and a line
/// feed.
pub proof fn lemma_document_begins_with_title(cs: Seq<ComponentView>, config: ConfigView)
    ensures
        (seq!['#', ' '] + config.title_text() + seq!['\n']).is_prefix_of(document(cs, config)),
{
    let line = seq!['#', ' '] + config.title_text() + seq!['\n'];
    let whole = document(cs, config);
    assert(line =~= whole.subrange(0, line.len() as int));
}

/// The document of no components is the head alone, whatever categories the
/// configuration names.
pub proof fn lemma_document_of_nothing(config: ConfigView)
    ensures
        document(Seq::empty(), config) == heading_block(config),
        config.description is None ==> document(Seq::empty(), config) == seq!['#', ' ']
            + config.title_text() + seq!['\n'],
{
    assert(seq!['#', ' '] + config.title_text() + seq!['\n'] + Seq::<char>::empty() =~= seq![
        '#',
        ' ',
    ] + config.title_text() + seq!['\n']);
}

/// The document is determined by the texts that the components and the
/// configuration hold: inputs that hold the same texts give the same
/// document.
pub proof fn lemma_document_is_determined(
    a: Seq<Component>,
    b: Seq<Component>,
    x: Config,
    y: Config,
)
    requires
        views(a) == views(b),
        x@ == y@,
    ensures
        document(views(a), x@) == document(views(b), y@),
{
}

/// Renders the document for `components` under `config`: the title line and
/// the configured description, then one section for each category that has
/// components. The configured categories come first, in their configured
/// order, the others behind them in ascending order; within a section the
/// components are listed by ascending path.
pub fn generate_document(components: &[Component], config: &Config) -> (doc: String)
    ensures
        doc@ == document(views(components@), config@),
        (seq!['#', ' '] + config@.title_text() + seq!['\n']).is_prefix_of(doc@),
        components@.len() == 0 ==> doc@ == heading_block(config@),
{
    proof {
        lemma_document_begins_with_title(views(components@), config@);
    }
    let mut doc = write_heading(config);
    if components.len() == 0 {
        return doc;
    }
    let groups = group_by_category(components);
    let order = order_categories(&groups, config);
    let ghost cs = views(components@);
    let ghost head = doc@;
    let ghost names = views(order@);
    proof {
        assert(names.take(0) =~= Seq::<Seq<char>>::empty());
        assert(doc@ =~= head + sections(names.take(0), cs, config@));
    }
    let mut i: usize = 0;
    while i < order.len()
        invariant
            i <= order@.len(),
            cs == views(components@),
            names == views(order@),
            names == category_sequence(group_names(groups@), config@.names()),
            forall|k: int|
                0 <= k < groups@.len() ==> views((#[trigger] groups@[k]).members@) == members_of(
                    cs,
                    groups@[k].category@,
                ),
            doc@ == head + sections(names.take(i as int), cs, config@),
        decreases order@.len() - i,
    {
        proof {
            assert(names.take(i + 1).drop_last() =~= names.take(i as int));
            assert(names.take(i + 1).last() == order@[i as int]@);
        }
        match find_group(&groups, order[i]) {
            Some(k) => {
                write_section(&mut doc, order[i], &groups[k].members, config);
            },
            None => {
                proof {
                    assert(names[i as int] == order@[i as int]@);
                    lemma_category_sequence_member(
                        group_names(groups@),
                        config@.names(),
                        order@[i as int]@,
                    );
                    assert(false);
                }
            },
        }
        proof {
            assert(doc@ =~= head + sections(names.take(i + 1), cs, config@));
        }
        i += 1;
    }
    proof {
        assert(names.take(i as int) =~= names);
    }
    doc
}

} // verus!
