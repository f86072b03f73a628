# email_bot

A bridge between a mailing list and Matrix rooms.

Mail of the list is fetched from a mailbox, read, formatted and posted to the rooms that the bot has
joined; answers are posted in the thread of the mail that they answer. Messages that room members
write in such a thread become mail to the list. Records tie events to messages, so that nothing is
posted or sent twice, the bridge does not answer itself, and mail that failed is tried again.

- `src/` holds the logic, verified with Verus: what is read, shown, sent and recorded, and what each
  task does next. `src/db_laws.rs` and the functions named `law_...` state what holds across calls.
- `app/` holds the program around it: the mailbox, the mail server, the Matrix client, SQLite, the
  configuration file and the tasks.
- `tests/` runs the library on examples.
