//! The editor commands that carry a batch out, as text.

use vstd::prelude::*;
use vstd::string::StringExecFns;
use crate::annotation::{CommandModel, ReconciliationCommand, Sign};
use crate::diffing::diffable;
use crate::reconcile::{command_views, reconcile, reconcile_spec};

verus! {

/// The character of a decimal digit.
pub open spec fn digit_char(d: nat) -> char {
    if d == 0 {
        '0'
    } else if d == 1 {
        '1'
    } else if d == 2 {
        '2'
    } else if d == 3 {
        '3'
    } else if d == 4 {
        '4'
    } else if d == 5 {
        '5'
    } else if d == 6 {
        '6'
    } else if d == 7 {
        '7'
    } else if d == 8 {
        '8'
    } else {
        '9'
    }
}

/// The number in decimal, without leading zeros.
pub open spec fn decimal(n: nat) -> Seq<char>
    decreases n,
{
    if n < 10 {
        seq![digit_char(n)]
    } else {
        decimal(n / 10).push(digit_char(n % 10))
    }
}

/// The text that places the sign in the file.
pub open spec fn add_sign_text(sign: Sign, file: Seq<char>) -> Seq<char> {
    " | execute 'sign place "@ + decimal(sign.id as nat) + " line="@ + decimal(sign.line as nat)
        + " name=LanguageClient"@ + sign.severity.spec_name() + " file="@ + file + "'"@
}

/// The text that removes the sign from the file.
pub open spec fn delete_sign_text(sign: Sign, file: Seq<char>) -> Seq<char> {
    " | execute 'sign unplace "@ + decimal(sign.id as nat) + " file="@ + file + "'"@
}

/// The text of one command.
pub open spec fn command_text(command: CommandModel) -> Seq<char> {
    match command {
        CommandModel::Add(sign, file) => add_sign_text(sign, file),
        CommandModel::Remove(sign, file) => delete_sign_text(sign, file),
    }
}

/// The texts of the commands, one after another.
pub open spec fn batch_text(commands: Seq<CommandModel>) -> Seq<char>
    decreases commands.len(),
{
    if commands.len() == 0 {
        Seq::empty()
    } else {
        batch_text(commands.drop_last()) + command_text(commands.last())
    }
}

/// The character of the digit `d`.
pub fn digit(d: u64) -> (c: char)
    requires
        d < 10,
    ensures
        c == digit_char(d as nat),
{
    if d == 0 {
        '0'
    } else if d == 1 {
        '1'
    } else if d == 2 {
        '2'
    } else if d == 3 {
        '3'
    } else if d == 4 {
        '4'
    } else if d == 5 {
        '5'
    } else if d == 6 {
        '6'
    } else if d == 7 {
        '7'
    } else if d == 8 {
        '8'
    } else {
        '9'
    }
}

/// Puts the number, in decimal, behind `out`.
pub fn push_decimal(out: &mut String, n: u64)
    ensures
        final(out)@ == old(out)@ + decimal(n as nat),
    decreases n,
{
    if n < 10 {
        out.push(digit(n));
        assert(out@ =~= old(out)@ + decimal(n as nat));
    } else {
        push_decimal(out, n / 10);
        out.push(digit(n % 10));
        assert(out@ =~= old(out)@ + decimal(n as nat));
    }
}

/// The editor command that places the sign in the file.
pub fn get_command_add_sign(sign: &Sign, filename: &str) -> (command: String)
    ensures
        command@ == add_sign_text(*sign, filename@),
{
    let mut command = String::new();
    command.append(" | execute 'sign place ");
    push_decimal(&mut command, sign.id);
    command.append(" line=");
    push_decimal(&mut command, sign.line);
    command.append(" name=LanguageClient");
    command.append(sign.severity.name());
    command.append(" file=");
    command.append(filename);
    command.append("'");
    assert(command@ =~= add_sign_text(*sign, filename@));
    command
}

/// The editor command that removes the sign from the file.
pub fn get_command_delete_sign(sign: &Sign, filename: &str) -> (command: String)
    ensures
        command@ == delete_sign_text(*sign, filename@),
{
    let mut command = String::new();
    command.append(" | execute 'sign unplace ");
    push_decimal(&mut command, sign.id);
    command.append(" file=");
    command.append(filename);
    command.append("'");
    assert(command@ =~= delete_sign_text(*sign, filename@));
    command
}

/// The editor command that carries out one command of a batch.
pub fn command_string(command: &ReconciliationCommand) -> (text: String)
    ensures
        text@ == command_text(command@),
{
    match command {
        ReconciliationCommand::AddAnnotation { sign, file } => get_command_add_sign(
            sign,
            file.as_str(),
        ),
        ReconciliationCommand::RemoveAnnotation { sign, file } => get_command_delete_sign(
            sign,
            file.as_str(),
        ),
    }
}

/// One editor command line for a batch: `echo`, then the text of each command
/// in order.
pub fn batch_string(commands: &Vec<ReconciliationCommand>) -> (line: String)
    ensures
        line@ == "echo"@ + batch_text(command_views(commands@)),
{
    let mut line = String::new();
    line.append("echo");
    let ghost views = command_views(commands@);
    let mut k: usize = 0;
    assert(views.take(0) =~= Seq::empty());
    assert(line@ =~= "echo"@ + batch_text(views.take(0)));
    while k < commands.len()
        invariant
            k <= commands@.len(),
            views == command_views(commands@),
            line@ == "echo"@ + batch_text(views.take(k as int)),
        decreases commands@.len() - k,
    {
        let text = command_string(&commands[k]);
        line.append(text.as_str());
        proof {
            assert(views.take(k + 1).drop_last() == views.take(k as int));
            assert(views.take(k + 1).last() == commands@[k as int]@);
            assert(line@ =~= "echo"@ + batch_text(views.take(k + 1)));
        }
        k += 1;
    }
    assert(views.take(k as int) == views);
    line
}

/// The editor command line that turns the signs `signs_prev` of `filename`
/// into `signs`: `echo`, then an unplace for each sign that only `signs_prev`
/// has and a place for each that only `signs` has, in the order of the diff.
pub fn get_command_update_signs(signs_prev: &[Sign], signs: &[Sign], filename: &str) -> (cmd:
    String)
    requires
        diffable(signs_prev@.len(), signs@.len()),
    ensures
        cmd@ == "echo"@ + batch_text(reconcile_spec(signs_prev@, signs@, filename@)),
{
    let commands = reconcile(signs_prev, signs, filename);
    batch_string(&commands)
}

} // verus!
