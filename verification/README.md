# Terracotta Installer

An interactive terminal installer that puts a
[Kiln](https://github.com/Terracotta-Linux/kiln)-managed system on a disk. It
partitions the target, initializes a Kiln sysroot, builds generation 1, deploys
it, installs GRUB, and creates the first account. It asks every question up
front, and nothing touches the disk until the review screen is accepted.

- `src/` is the library. Everything the installer decides is here, verified with
  Verus: which disks may be erased, what is asked and what is accepted, what the
  configuration says, which commands are run in which order, what is logged and
  shown, and what happens when something fails.
- `app/` is the program around it: the terminal, processes and files.
- `tests/` runs the library on concrete values.

## How the library is used

Questions and steps are state machines. `interview::ask` begins the interview;
`Interview::draw` gives the lines of the open screen, and `Interview::press`
takes a key and says whether the interview goes on, is finished, or was left.
`steps::Installer::install` begins the install; `Installer::next` says what is to
be done, and `Installer::report` takes the outcome and goes on from there.

## What is proved

Each function has a contract that says exactly what it gives back, over the
characters of its strings and the entries of its lists. Beyond that, public proof
functions state what holds of the installer as a whole. Among them:

- Esc goes back one question and changes no answer; Ctrl-C leaves from anywhere.
- A disk that is in use or too small is never the one that is erased, and erasing
  a disk means typing its name.
- Root is left without a password only where `wheel` may sudo.
- No account, password or passphrase reaches the configuration, and secrets reach
  a command on its stdin and nowhere else.
- What unlocks an encrypted root is in the configuration all together or not at
  all.
- A dry run starts no process for a step and writes no file, and goes through the
  very commands of a real run. It ends well whenever the library has the modules
  that were chosen.
- What a step has mounted is unmounted before it is left, last first, and the
  first failure is the one that is reported.
- The install comes to an end.

What is believed without proof is what `String::push`, `str::to_lowercase`,
`char::is_uppercase` and crossterm's `KeyModifiers` do.
